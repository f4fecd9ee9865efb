use vstd::prelude::*;

pub mod position;
pub mod value;

use crate::tile::position::Position;
use crate::tile::value::Value;

verus! {

/// A value standing at a position: what a query of the board returns and
/// what actions carry.
#[derive(Clone, Copy, Debug, PartialEq, Eq, Structural)]
pub struct Tile {
    pub value: Value,
    pub position: Position,
}

} // verus!
