use rand_chacha::ChaCha8Rng;
use vstd::prelude::*;

use crate::action::{positions, Action};
use crate::direction::Direction;
use crate::line::{is_partition, lemma_line_actions_partition, line_actions, scan, Scan};
use crate::random::{draw_below, draw_nine_in_ten};
use crate::replay::{all_valid, compacted, lemma_move_compacts_lines, lemma_move_keeps_valid};
use crate::tile::position::{traversal_position, Line, Position, TraversalMap};
use crate::tile::value::{pow2, Value, MAX_TILE_VALUE};
use crate::tile::Tile;

verus! {

/// A square grid of cells, stored row by row, with the lines each direction
/// traverses.
#[derive(Clone, Debug)]
pub struct Board {
    pub size: usize,
    pub tiles: Vec<Value>,
    pub traversal_map: TraversalMap,
}

/// Whether `p` lies on a grid of `size`.
pub open spec fn in_grid(size: nat, p: Position) -> bool {
    p.row < size && p.col < size
}

/// Where the value of `p` is kept in the row-by-row cells.
pub open spec fn cell_index(size: nat, p: Position) -> int {
    p.row * size + p.col
}

/// The cells with `p` set to `v`.
pub open spec fn with_value(cells: Seq<Value>, size: nat, p: Position, v: Value) -> Seq<Value> {
    cells.update(cell_index(size, p), v)
}

/// Every position the action names lies on the grid.
pub open spec fn action_in_grid(size: nat, a: Action) -> bool {
    forall|p: Position| #[trigger] positions(a).contains(p) ==> in_grid(size, p)
}

/// The cells after the action.
pub open spec fn applied(cells: Seq<Value>, size: nat, a: Action) -> Seq<Value> {
    match a {
        Action::SpawnRandomTile(t) => with_value(cells, size, t.position, t.value),
        Action::SlideTile(t, to) => with_value(
            with_value(cells, size, t.position, Value::Empty),
            size,
            to,
            t.value,
        ),
        Action::MergeTiles(t1, t2, to, v) => with_value(
            with_value(with_value(cells, size, t1.position, Value::Empty), size, t2.position, Value::Empty),
            size,
            to,
            v,
        ),
    }
}

/// The cells after the actions, one after the other.
pub open spec fn applied_all(cells: Seq<Value>, size: nat, actions: Seq<Action>) -> Seq<Value>
    decreases actions.len(),
{
    if actions.len() == 0 {
        cells
    } else {
        applied(applied_all(cells, size, actions.drop_last()), size, actions.last())
    }
}

/// The values met along `line`.
pub open spec fn values_along(cells: Seq<Value>, size: nat, line: Seq<Position>) -> Seq<Value> {
    line.map_values(|p: Position| cells[cell_index(size, p)])
}

/// Line `i` of direction `d` on a grid of `size`.
pub open spec fn line_of(size: nat, d: Direction, i: nat) -> Seq<Position> {
    Seq::new(size, |j: int| traversal_position(size, d.is_vertical(), d.is_reversed(), i, j as nat))
}

/// The actions of the first `n` lines of direction `d`, line after line.
pub open spec fn plan_lines(cells: Seq<Value>, size: nat, d: Direction, n: nat) -> Seq<Action>
    decreases n,
{
    if n == 0 {
        Seq::empty()
    } else {
        let line = line_of(size, d, (n - 1) as nat);
        plan_lines(cells, size, d, (n - 1) as nat) + line_actions(line, values_along(cells, size, line))
    }
}

/// The positions that hold no tile, row by row.
pub open spec fn empty_positions_of(cells: Seq<Value>, size: nat, n: nat) -> Seq<Position>
    decreases n,
{
    if n == 0 {
        Seq::empty()
    } else {
        let i = (n - 1) as int;
        let before = empty_positions_of(cells, size, (n - 1) as nat);
        if cells[i] == Value::Empty {
            before.push(Position { row: (i / size as int) as usize, col: (i % size as int) as usize })
        } else {
            before
        }
    }
}

/// The spawn of a 2 (or a 4 when `two` fails) at `p`.
pub open spec fn spawn_at(p: Position, two: bool) -> Action {
    Action::SpawnRandomTile(Tile { value: if two { Value::Number(2) } else { Value::Number(4) }, position: p })
}

pub(crate) proof fn lemma_line_of(size: nat, d: Direction, i: nat)
    requires
        i < size <= usize::MAX,
    ensures
        line_of(size, d, i).len() == size,
        line_of(size, d, i).no_duplicates(),
        forall|j: int| 0 <= j < size ==> in_grid(size, #[trigger] line_of(size, d, i)[j]),
{
    let line = line_of(size, d, i);
    assert forall|a: int, b: int| 0 <= a < line.len() && 0 <= b < line.len() && a != b implies line[a]
        != line[b] by {
    }
}

proof fn lemma_plan_in_grid(cells: Seq<Value>, size: nat, d: Direction, n: nat)
    requires
        n <= size <= usize::MAX,
    ensures
        forall|j: int| 0 <= j < plan_lines(cells, size, d, n).len() ==> action_in_grid(size, #[trigger] plan_lines(cells, size, d, n)[j]),
    decreases n,
{
    if n > 0 {
        let line = line_of(size, d, (n - 1) as nat);
        let vals = values_along(cells, size, line);
        let before = plan_lines(cells, size, d, (n - 1) as nat);
        let acts = line_actions(line, vals);
        lemma_plan_in_grid(cells, size, d, (n - 1) as nat);
        lemma_line_of(size, d, (n - 1) as nat);
        lemma_line_actions_partition(line, vals);
        let all = plan_lines(cells, size, d, n);
        assert(all == before + acts);
        assert forall|j: int| 0 <= j < all.len() implies action_in_grid(size, #[trigger] all[j]) by {
            if j >= before.len() {
                let a = acts[j - before.len()];
                assert(all[j] == a);
                assert forall|p: Position| #[trigger] positions(a).contains(p) implies in_grid(size, p) by {
                    assert(line.contains(p));
                    let w = choose|w: int| 0 <= w < line.len() && line[w] == p;
                }
            } else {
                assert(all[j] == before[j]);
            }
        }
    }
}

proof fn lemma_empty_positions(cells: Seq<Value>, size: nat, n: nat)
    requires
        n <= cells.len() == size * size <= usize::MAX,
    ensures
        empty_positions_of(cells, size, n).len() == 0 <==> forall|i: int| 0 <= i < n ==> cells[i] != Value::Empty,
        forall|j: int| 0 <= j < empty_positions_of(cells, size, n).len() ==> {
            let p = #[trigger] empty_positions_of(cells, size, n)[j];
            in_grid(size, p) && 0 <= cell_index(size, p) < n && cells[cell_index(size, p)] == Value::Empty
        },
    decreases n,
{
    if n > 0 {
        lemma_empty_positions(cells, size, (n - 1) as nat);
        let i = (n - 1) as int;
        let before = empty_positions_of(cells, size, (n - 1) as nat);
        let all = empty_positions_of(cells, size, n);
        if cells[i] == Value::Empty {
            let p = Position { row: (i / size as int) as usize, col: (i % size as int) as usize };
            assert(all == before.push(p));
            assert(size > 0) by (nonlinear_arith)
                requires 0 <= i < size * size;
            assert(i == (i / size as int) * size + (i % size as int)) by (nonlinear_arith)
                requires size > 0;
            assert(0 <= i / size as int <= i) by (nonlinear_arith)
                requires size > 0, i >= 0;
            assert((i / size as int) < size) by (nonlinear_arith)
                requires size > 0, 0 <= i < size * size;
            assert(0 <= i % size as int <= i);
            assert(cell_index(size, p) == i);
            assert forall|j: int| 0 <= j < all.len() implies {
                let q = #[trigger] all[j];
                in_grid(size, q) && 0 <= cell_index(size, q) < n && cells[cell_index(size, q)] == Value::Empty
            } by {
                if j < before.len() {
                    assert(all[j] == before[j]);
                }
            }
        } else {
            assert forall|j: int| 0 <= j < all.len() implies {
                let q = #[trigger] all[j];
                in_grid(size, q) && 0 <= cell_index(size, q) < n && cells[cell_index(size, q)] == Value::Empty
            } by {
                assert(all[j] == before[j]);
            }
        }
    }
}

/// Within a move on a board, the actions of each line form a partition: no
/// destination receives two outcomes and no tile is consumed twice.
pub proof fn lemma_board_line_partition(b: Board, d: Direction, i: nat)
    requires
        b.wf(),
        i < b.size,
    ensures
        is_partition(line_actions(line_of(b.size as nat, d, i), b.values_on(line_of(b.size as nat, d, i)))),
{
    let line = line_of(b.size as nat, d, i);
    lemma_line_of(b.size as nat, d, i);
    lemma_line_actions_partition(line, b.values_on(line));
}

proof fn lemma_cell_index_bound(size: nat, p: Position)
    requires
        in_grid(size, p),
    ensures
        0 <= p.row * size <= cell_index(size, p) < size * size,
{
    assert(p.row * size + p.col < size * size) by (nonlinear_arith)
        requires
            p.row < size,
            p.col < size,
    ;
}

impl Board {
    /// The board keeps one cell per position and the lines of its size.
    pub open spec fn wf(&self) -> bool {
        &&& self.tiles@.len() == self.size * self.size
        &&& self.traversal_map.is_map_of(self.size as nat)
    }

    /// The value at `p`.
    pub open spec fn value_at(&self, p: Position) -> Value {
        self.tiles@[cell_index(self.size as nat, p)]
    }

    /// The values met along `line`.
    pub open spec fn values_on(&self, line: Seq<Position>) -> Seq<Value> {
        values_along(self.tiles@, self.size as nat, line)
    }

    /// The actions that a move in direction `d` takes.
    pub open spec fn plan(&self, d: Direction) -> Seq<Action> {
        plan_lines(self.tiles@, self.size as nat, d, self.size as nat)
    }

    /// The empty positions, row by row.
    pub open spec fn empty_positions(&self) -> Seq<Position> {
        empty_positions_of(self.tiles@, self.size as nat, self.tiles@.len())
    }

    /// The actions that push every tile toward direction `direction`: each
    /// line of that direction compacted in turn. The board is not changed.
    pub fn plan_slide_and_merge(&self, direction: &Direction) -> (r: Vec<Action>)
        requires
            self.wf(),
        ensures
            r@ == self.plan(*direction),
    {
        let lines = self.traversal_map.get(direction);
        let mut events: Vec<Action> = Vec::new();
        let mut i: usize = 0;
        while i < lines.len()
            invariant
                self.wf(),
                lines@ == self.traversal_map.lines(*direction),
                lines@.len() == self.size,
                i <= lines@.len(),
                events@ == plan_lines(self.tiles@, self.size as nat, *direction, i as nat),
            decreases lines@.len() - i,
        {
            proof {
                lemma_line_of(self.size as nat, *direction, i as nat);
                assert(lines@[i as int]@ =~= line_of(self.size as nat, *direction, i as nat));
            }
            let mut es = self.slide_and_merge_line(&lines[i]);
            events.append(&mut es);
            i = i + 1;
        }
        events
    }

    /// Plans the move in `direction` and carries it out; tells whether any
    /// action was taken.
    pub fn slide_and_merge(&mut self, direction: Direction) -> (moved: bool)
        requires
            old(self).wf(),
        ensures
            final(self).wf(),
            final(self).size == old(self).size,
            final(self).traversal_map == old(self).traversal_map,
            final(self).tiles@ == applied_all(old(self).tiles@, old(self).size as nat, old(self).plan(direction)),
            moved == (old(self).plan(direction).len() > 0),
            forall|i: int, j: int|
                0 <= i < old(self).size && 0 <= j < old(self).size ==> final(self).value_at(
                    #[trigger] line_of(old(self).size as nat, direction, i as nat)[j],
                ) == compacted(old(self).values_on(line_of(old(self).size as nat, direction, i as nat)))[j],
            all_valid(old(self).tiles@) ==> all_valid(final(self).tiles@),
    {
        proof {
            lemma_move_compacts_lines(*self, direction);
            if all_valid(self.tiles@) {
                lemma_move_keeps_valid(*self, direction);
            }
        }
        let events = self.plan_slide_and_merge(&direction);
        let moved = events.len() > 0;
        let ghost start = self.tiles@;
        let ghost size = self.size as nat;
        let ghost map = self.traversal_map;
        proof {
            lemma_plan_in_grid(start, size, direction, size);
        }
        let mut i: usize = 0;
        while i < events.len()
            invariant
                self.wf(),
                self.size == size,
                self.traversal_map == map,
                i <= events@.len(),
                events@ == plan_lines(start, size, direction, size),
                forall|j: int| 0 <= j < events@.len() ==> action_in_grid(size, #[trigger] events@[j]),
                self.tiles@ == applied_all(start, size, events@.take(i as int)),
            decreases events@.len() - i,
        {
            self.apply(events[i]);
            proof {
                assert(events@.take(i + 1).drop_last() =~= events@.take(i as int));
            }
            i = i + 1;
        }
        proof {
            assert(events@.take(events@.len() as int) =~= events@);
        }
        moved
    }

    /// The empty positions, row by row.
    pub fn empty_positions_in_order(&self) -> (r: Vec<Position>)
        requires
            self.wf(),
        ensures
            r@ == self.empty_positions(),
    {
        let mut r: Vec<Position> = Vec::new();
        let n = self.tiles.len();
        let mut i: usize = 0;
        while i < n
            invariant
                self.wf(),
                n == self.tiles@.len(),
                i <= n,
                r@ == empty_positions_of(self.tiles@, self.size as nat, i as nat),
            decreases n - i,
        {
            if self.tiles[i] == Value::Empty {
                r.push(Position { row: i / self.size, col: i % self.size });
            }
            i = i + 1;
        }
        r
    }

    /// The spawn that the draws `index` and `two` choose: a 2 (a 4 when `two`
    /// fails) at the empty position `index` counts to, row by row, taken
    /// modulo their number; none on a full board.
    pub fn plan_spawn_from_draws(&self, index: usize, two: bool) -> (r: Option<Action>)
        requires
            self.wf(),
        ensures
            r == if self.empty_positions().len() == 0 {
                None
            } else {
                Some(spawn_at(self.empty_positions()[(index as nat % self.empty_positions().len()) as int], two))
            },
    {
        let empty = self.empty_positions_in_order();
        if empty.len() == 0 {
            return None;
        }
        let value = if two { Value::Number(2) } else { Value::Number(4) };
        Some(Action::SpawnRandomTile(Tile { value, position: empty[index % empty.len()] }))
    }

    /// Plans a new tile on an empty cell chosen with `rng`: a 2 nine times in
    /// ten, else a 4. None when no cell is empty.
    pub fn plan_spawn_random_tile(&self, rng: &mut ChaCha8Rng) -> (r: Option<Action>)
        requires
            self.wf(),
        ensures
            r is None <==> forall|i: int| 0 <= i < self.tiles@.len() ==> self.tiles@[i] != Value::Empty,
            r matches Some(a) ==> exists|j: int, two: bool|
                0 <= j < self.empty_positions().len() && a == spawn_at(self.empty_positions()[j], two),
            r matches Some(a) ==> a matches Action::SpawnRandomTile(t) && in_grid(self.size as nat, t.position)
                && self.value_at(t.position) == Value::Empty && action_in_grid(self.size as nat, a)
                && (t.value == Value::Number(2) || t.value == Value::Number(4)),
    {
        let n = self.tiles.len();
        proof {
            lemma_empty_positions(self.tiles@, self.size as nat, self.tiles@.len());
        }
        let count = self.empty_positions_in_order().len();
        if count == 0 {
            return None;
        }
        let index = draw_below(rng, count);
        let two = draw_nine_in_ten(rng);
        let r = self.plan_spawn_from_draws(index, two);
        r
    }

    /// One turn: the move in `direction`, carried out, then, if the move
    /// changed anything, a tile spawned with `rng` and carried out. Returns the
    /// actions of the move and the spawn.
    pub fn play_turn(&mut self, direction: Direction, rng: &mut ChaCha8Rng) -> (r: (Vec<Action>, Option<Action>))
        requires
            old(self).wf(),
        ensures
            final(self).wf(),
            final(self).size == old(self).size,
            final(self).traversal_map == old(self).traversal_map,
            r.0@ == old(self).plan(direction),
            r.0@.len() == 0 ==> r.1 is None && final(self).tiles@ == old(self).tiles@,
            r.0@.len() > 0 ==> ({
                let moved = applied_all(old(self).tiles@, old(self).size as nat, r.0@);
                &&& r.1 is None <==> forall|i: int| 0 <= i < moved.len() ==> moved[i] != Value::Empty
                &&& r.1 matches Some(a) ==> a matches Action::SpawnRandomTile(t)
                    && in_grid(old(self).size as nat, t.position)
                    && moved[cell_index(old(self).size as nat, t.position)] == Value::Empty
                    && (t.value == Value::Number(2) || t.value == Value::Number(4))
                &&& final(self).tiles@ == match r.1 {
                    Some(a) => applied(moved, old(self).size as nat, a),
                    None => moved,
                }
            }),
            all_valid(old(self).tiles@) ==> all_valid(final(self).tiles@),
    {
        let events = self.plan_slide_and_merge(&direction);
        let moved = self.slide_and_merge(direction);
        if !moved {
            proof {
                assert(events@.len() == 0);
            }
            return (events, None);
        }
        let spawn = self.plan_spawn_random_tile(rng);
        if let Some(a) = spawn {
            proof {
                let j = choose|j: int, two: bool|
                    0 <= j < self.empty_positions().len() && a == spawn_at(self.empty_positions()[j], two);
            }
            let ghost before = self.tiles@;
            self.apply(a);
            proof {
                if let Action::SpawnRandomTile(t) = a {
                    reveal_with_fuel(pow2, 3);
                    assert(t.value.is_valid()) by {
                        if t.value == Value::Number(2) {
                            assert(pow2(1) == 2);
                        } else {
                            assert(pow2(2) == 4);
                        }
                    }
                    lemma_cell_index_bound(self.size as nat, t.position);
                    if all_valid(before) {
                        assert forall|x: int| 0 <= x < self.tiles@.len() implies (#[trigger] self.tiles@[x]).is_valid() by {
                            if x != cell_index(self.size as nat, t.position) {
                                assert(self.tiles@[x] == before[x]);
                            }
                        }
                    }
                }
            }
        }
        (events, spawn)
    }

    /// An empty board of `size` by `size` cells.
    pub fn new(size: usize) -> (r: Board)
        requires
            size * size <= usize::MAX,
        ensures
            r.wf(),
            r.size == size,
            r.tiles@ == Seq::new((size * size) as nat, |i: int| Value::Empty),
            all_valid(r.tiles@),
    {
        let n: usize = size * size;
        let mut tiles: Vec<Value> = Vec::with_capacity(n);
        let mut i: usize = 0;
        while i < n
            invariant
                i <= n,
                tiles@ == Seq::new(i as nat, |j: int| Value::Empty),
            decreases n - i,
        {
            tiles.push(Value::Empty);
            i = i + 1;
        }
        Board { size, tiles, traversal_map: Position::generate_traversal_map(size) }
    }

    /// Sets the value at `p`.
    pub fn set_value(&mut self, p: &Position, value: Value)
        requires
            old(self).wf(),
            in_grid(old(self).size as nat, *p),
        ensures
            final(self).wf(),
            final(self).size == old(self).size,
            final(self).traversal_map == old(self).traversal_map,
            final(self).tiles@ == with_value(old(self).tiles@, old(self).size as nat, *p, value),
    {
        let n = self.tiles.len();
        proof {
            lemma_cell_index_bound(self.size as nat, *p);
        }
        let i = p.row * self.size + p.col;
        self.tiles.set(i, value);
    }

    /// The value at `p`.
    pub fn get_value(&self, p: &Position) -> (r: Value)
        requires
            self.wf(),
            in_grid(self.size as nat, *p),
        ensures
            r == self.value_at(*p),
    {
        let n = self.tiles.len();
        proof {
            lemma_cell_index_bound(self.size as nat, *p);
        }
        self.tiles[p.row * self.size + p.col]
    }

    /// The tile at `p`.
    pub fn get_tile(&self, p: &Position) -> (r: Tile)
        requires
            self.wf(),
            in_grid(self.size as nat, *p),
        ensures
            r == (Tile { value: self.value_at(*p), position: *p }),
    {
        Tile { value: self.get_value(p), position: *p }
    }

    /// Carries out one action.
    pub fn apply(&mut self, event: Action)
        requires
            old(self).wf(),
            action_in_grid(old(self).size as nat, event),
        ensures
            final(self).wf(),
            final(self).size == old(self).size,
            final(self).traversal_map == old(self).traversal_map,
            final(self).tiles@ == applied(old(self).tiles@, old(self).size as nat, event),
    {
        match event {
            Action::SpawnRandomTile(tile) => {
                assert(positions(event).contains(tile.position));
                self.set_value(&tile.position, tile.value);
            },
            Action::SlideTile(tile, to) => {
                assert(positions(event).contains(tile.position));
                assert(positions(event).contains(to));
                self.set_value(&tile.position, Value::Empty);
                self.set_value(&to, tile.value);
            },
            Action::MergeTiles(tile1, tile2, to, value) => {
                assert(positions(event).contains(tile1.position));
                assert(positions(event).contains(tile2.position));
                assert(positions(event).contains(to));
                self.set_value(&tile1.position, Value::Empty);
                self.set_value(&tile2.position, Value::Empty);
                self.set_value(&to, value);
            },
        }
    }

    /// The actions that compact one line, scanning it from the edge the
    /// tiles move toward.
    pub fn slide_and_merge_line(&self, line_traversal: &Line) -> (r: Vec<Action>)
        requires
            self.wf(),
            forall|j: int| 0 <= j < line_traversal@.len() ==> in_grid(self.size as nat, #[trigger] line_traversal@[j]),
        ensures
            r@ == line_actions(line_traversal@, self.values_on(line_traversal@)),
    {
        let ghost line = line_traversal@;
        let ghost vals = self.values_on(line);
        let mut events: Vec<Action> = Vec::new();
        let mut focus_idx: usize = 0;
        let mut prev: Option<(usize, u32)> = None;
        let mut deferred: Option<(Tile, Position)> = None;
        let mut k: usize = 0;
        while k < line_traversal.len()
            invariant
                line == line_traversal@,
                vals == self.values_on(line),
                self.wf(),
                forall|j: int| 0 <= j < line.len() ==> in_grid(self.size as nat, #[trigger] line[j]),
                k <= line.len(),
                focus_idx <= k,
                prev matches Some((ps, _)) ==> ps < focus_idx,
                scan(line, vals, k as nat) == (Scan {
                    focus: focus_idx as nat,
                    prev: match prev {
                        Some((ps, pv)) => Some((ps as nat, pv)),
                        None => None,
                    },
                    pending: deferred,
                    actions: events@,
                }),
            decreases line.len() - k,
        {
            let current_cell = line_traversal[k];
            let focus_cell = line_traversal[focus_idx];
            let can_slide = current_cell != focus_cell;
            let current = self.get_value(&current_cell);
            assert(vals[k as int] == current);
            if let Value::Number(current_value) = current {
                let here = Tile { value: current, position: current_cell };
                let mut merge = false;
                if let Some((prev_idx, prev_value)) = prev {
                    if prev_value == current_value && prev_value < MAX_TILE_VALUE {
                        merge = true;
                        let prev_cell = line_traversal[prev_idx];
                        let (tile1, to) = match deferred {
                            Some((t, p)) => (t, p),
                            None => (Tile { value: Value::Number(prev_value), position: prev_cell }, prev_cell),
                        };
                        let value = Value::Number(prev_value).merge(here.value);
                        events.push(Action::MergeTiles(tile1, here, to, value));
                        deferred = None;
                        prev = None;
                    }
                }
                if !merge {
                    if can_slide {
                        if let Some((t, p)) = deferred {
                            events.push(Action::SlideTile(t, p));
                        }
                        deferred = Some((here, focus_cell));
                    }
                    prev = Some((focus_idx, current_value));
                    focus_idx = focus_idx + 1;
                }
            }
            k = k + 1;
        }
        if let Some((t, p)) = deferred {
            events.push(Action::SlideTile(t, p));
        }
        events
    }
}

} // verus!
