use vstd::prelude::*;

use crate::direction::Direction;

verus! {

/// A cell of the grid.
#[derive(Clone, Copy, Debug, PartialEq, Eq, Hash, Structural)]
pub struct Position {
    pub row: usize,
    pub col: usize,
}

/// The positions of one line, in the order tiles are compacted (index 0 is
/// the edge they move toward).
pub type Line = Vec<Position>;

/// The lines of one direction.
pub type LineTraversals = Vec<Line>;

/// Position `j` of line `i` on a grid of `size`: line `i` is row `i`, or
/// column `i` when `transpose` holds; the line runs backwards when `mirror`
/// holds.
pub open spec fn traversal_position(size: nat, transpose: bool, mirror: bool, i: nat, j: nat) -> Position {
    let along = if mirror { (size - 1 - j) as nat } else { j };
    if transpose {
        Position { row: along as usize, col: i as usize }
    } else {
        Position { row: i as usize, col: along as usize }
    }
}

/// `lines` are the `size` lines of `size` positions each that
/// `traversal_position` describes.
pub open spec fn is_traversal(lines: Seq<Line>, size: nat, transpose: bool, mirror: bool) -> bool {
    &&& lines.len() == size
    &&& forall|i: int| 0 <= i < size ==> (#[trigger] lines[i])@.len() == size
    &&& forall|i: int, j: int|
        0 <= i < size && 0 <= j < size ==> (#[trigger] lines[i]@[j]) == traversal_position(
            size,
            transpose,
            mirror,
            i as nat,
            j as nat,
        )
}

/// The lines of one direction partition the grid: every position of a grid
/// of `size` stands on exactly one line, at exactly one place.
pub proof fn lemma_traversal_partitions_grid(size: nat, transpose: bool, mirror: bool, p: Position)
    requires
        size <= usize::MAX,
        p.row < size,
        p.col < size,
    ensures
        exists|i: nat, j: nat| i < size && j < size && traversal_position(size, transpose, mirror, i, j) == p,
        forall|i1: nat, j1: nat, i2: nat, j2: nat|
            i1 < size && j1 < size && i2 < size && j2 < size && #[trigger] traversal_position(size, transpose, mirror, i1, j1)
                == p && #[trigger] traversal_position(size, transpose, mirror, i2, j2) == p ==> i1 == i2 && j1 == j2,
{
    let (line, along) = if transpose { (p.col as nat, p.row as nat) } else { (p.row as nat, p.col as nat) };
    let j = if mirror { (size - 1 - along) as nat } else { along };
    assert(traversal_position(size, transpose, mirror, line, j) == p);
}

/// The lines of every direction on one grid.
#[derive(Clone, Debug)]
pub struct TraversalMap {
    pub left: LineTraversals,
    pub right: LineTraversals,
    pub up: LineTraversals,
    pub down: LineTraversals,
}

impl TraversalMap {
    /// The lines of direction `d`.
    pub open spec fn lines(&self, d: Direction) -> Seq<Line> {
        match d {
            Direction::Left => self.left@,
            Direction::Right => self.right@,
            Direction::Up => self.up@,
            Direction::Down => self.down@,
        }
    }

    /// Each direction holds its lines for a grid of `size`.
    pub open spec fn is_map_of(&self, size: nat) -> bool {
        forall|d: Direction| is_traversal(#[trigger] self.lines(d), size, d.is_vertical(), d.is_reversed())
    }

    /// The lines of direction `d`.
    pub fn get(&self, d: &Direction) -> (r: &LineTraversals)
        ensures
            r@ == self.lines(*d),
    {
        match d {
            Direction::Left => &self.left,
            Direction::Right => &self.right,
            Direction::Up => &self.up,
            Direction::Down => &self.down,
        }
    }
}

impl Position {
    /// The neighbouring position one step in `direction`: `Up` adds a row,
    /// `Down` takes one away, `Left` takes a column away, `Right` adds one.
    pub open spec fn stepped(self, direction: Direction) -> Position {
        match direction {
            Direction::Up => Position { row: (self.row + 1) as usize, col: self.col },
            Direction::Down => Position { row: (self.row - 1) as usize, col: self.col },
            Direction::Left => Position { row: self.row, col: (self.col - 1) as usize },
            Direction::Right => Position { row: self.row, col: (self.col + 1) as usize },
        }
    }

    /// The neighbouring position one step in `direction` (see `stepped`).
    pub fn move_within(&self, direction: &Direction) -> (r: Position)
        requires
            *direction == Direction::Up ==> self.row < usize::MAX,
            *direction == Direction::Down ==> self.row > 0,
            *direction == Direction::Left ==> self.col > 0,
            *direction == Direction::Right ==> self.col < usize::MAX,
        ensures
            r == self.stepped(*direction),
    {
        let mut new_pos = *self;
        match direction {
            Direction::Up => {
                new_pos.row = new_pos.row + 1;
            },
            Direction::Down => {
                new_pos.row = new_pos.row - 1;
            },
            Direction::Left => {
                new_pos.col = new_pos.col - 1;
            },
            Direction::Right => {
                new_pos.col = new_pos.col + 1;
            },
        }
        new_pos
    }

    /// The lines of all four directions for a grid of `size`.
    pub fn generate_traversal_map(size: usize) -> (r: TraversalMap)
        ensures
            r.is_map_of(size as nat),
    {
        let r = TraversalMap {
            left: Position::generate_line_traversal(size, false, false),
            right: Position::generate_line_traversal(size, false, true),
            up: Position::generate_line_traversal(size, true, false),
            down: Position::generate_line_traversal(size, true, true),
        };
        assert forall|d: Direction| is_traversal(#[trigger] r.lines(d), size as nat, d.is_vertical(), d.is_reversed()) by {
            match d {
                Direction::Left => {},
                Direction::Right => {},
                Direction::Up => {},
                Direction::Down => {},
            }
        }
        r
    }

    /// The `size` lines of a grid of `size`: rows (columns when `transpose`),
    /// each in natural order (reversed when `mirror`).
    pub fn generate_line_traversal(size: usize, transpose: bool, mirror: bool) -> (r: LineTraversals)
        ensures
            is_traversal(r@, size as nat, transpose, mirror),
    {
        let mut traversals: LineTraversals = Vec::with_capacity(size);
        let mut row: usize = 0;
        while row < size
            invariant
                row <= size,
                traversals@.len() == row,
                forall|i: int| 0 <= i < row ==> (#[trigger] traversals@[i])@.len() == size,
                forall|i: int, j: int|
                    0 <= i < row && 0 <= j < size ==> (#[trigger] traversals@[i]@[j])
                        == traversal_position(size as nat, transpose, mirror, i as nat, j as nat),
            decreases size - row,
        {
            let mut line: Line = Vec::with_capacity(size);
            let mut k: usize = 0;
            while k < size
                invariant
                    row < size,
                    k <= size,
                    line@.len() == k,
                    forall|j: int|
                        0 <= j < k ==> (#[trigger] line@[j]) == traversal_position(
                            size as nat,
                            transpose,
                            mirror,
                            row as nat,
                            j as nat,
                        ),
                decreases size - k,
            {
                let col = if mirror { size - 1 - k } else { k };
                let pos = if transpose { Position { row: col, col: row } } else { Position { row, col } };
                line.push(pos);
                k = k + 1;
            }
            traversals.push(line);
            row = row + 1;
        }
        traversals
    }
}

} // verus!
