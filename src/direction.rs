use vstd::prelude::*;

use crate::tile::value::push_char;

verus! {

/// A direction in which the tiles of the board are pushed.
#[derive(Clone, Copy, Debug, PartialEq, Eq, Hash, Structural)]
pub enum Direction {
    Left,
    Right,
    Up,
    Down,
}

impl Direction {
    /// The letter that names the direction in logs.
    pub open spec fn spec_letter(self) -> char {
        match self {
            Direction::Left => 'L',
            Direction::Right => 'R',
            Direction::Up => 'U',
            Direction::Down => 'D',
        }
    }

    /// Whether the lines of this direction are columns rather than rows.
    pub open spec fn is_vertical(self) -> bool {
        self is Up || self is Down
    }

    /// Whether tiles of this direction move toward the last row or column.
    pub open spec fn is_reversed(self) -> bool {
        self is Right || self is Down
    }

    /// The letter that names the direction.
    pub fn letter(&self) -> (c: char)
        ensures
            c == self.spec_letter(),
    {
        match self {
            Direction::Left => 'L',
            Direction::Right => 'R',
            Direction::Up => 'U',
            Direction::Down => 'D',
        }
    }

    /// The one-letter text of the direction.
    pub fn to_string(&self) -> (s: String)
        ensures
            s@ == seq![self.spec_letter()],
    {
        let mut s = String::new();
        push_char(&mut s, self.letter());
        s
    }
}

} // verus!
