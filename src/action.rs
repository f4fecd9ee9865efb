use vstd::prelude::*;

use crate::tile::position::Position;
use crate::tile::value::Value;
use crate::tile::Tile;

verus! {

/// One atomic change of the board.
#[derive(Clone, Copy, Debug, PartialEq, Eq, Structural)]
pub enum Action {
    /// A new tile appears.
    SpawnRandomTile(Tile),
    /// A tile moves to the position.
    SlideTile(Tile, Position),
    /// Two tiles leave their positions and one tile of the value appears at the position.
    MergeTiles(Tile, Tile, Position, Value),
}

/// The position that receives the outcome of the action.
pub open spec fn dest(a: Action) -> Position {
    match a {
        Action::SpawnRandomTile(t) => t.position,
        Action::SlideTile(_, to) => to,
        Action::MergeTiles(_, _, to, _) => to,
    }
}

/// The positions whose tiles the action consumes.
pub open spec fn sources(a: Action) -> Set<Position> {
    match a {
        Action::SpawnRandomTile(_) => Set::empty(),
        Action::SlideTile(t, _) => set![t.position],
        Action::MergeTiles(t1, t2, _, _) => set![t1.position, t2.position],
    }
}

/// Every position that the action names.
pub open spec fn positions(a: Action) -> Set<Position> {
    sources(a).insert(dest(a))
}

} // verus!
