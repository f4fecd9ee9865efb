use vstd::prelude::*;

use crate::action::Action;
use crate::board::{applied, applied_all, cell_index, in_grid, lemma_line_of, line_of, plan_lines, values_along, with_value, Board};
use crate::direction::Direction;
use crate::line::{line_actions, scan, scan_inv, scan_step, Scan};
use crate::tile::position::Position;
use crate::tile::value::{lemma_pow2_monotone, pow2, Value, MAX_TILE_VALUE};
use crate::tile::Tile;

verus! {

/// Compacting the first `k` cells of a line, the classic way: the numbers
/// placed so far, in order, and whether the last of them may still merge
/// (it may not once it came out of a merge).
pub open spec fn packed(vals: Seq<Value>, k: nat) -> (Seq<u32>, bool)
    decreases k,
{
    if k == 0 {
        (Seq::empty(), false)
    } else {
        let (out, open) = packed(vals, (k - 1) as nat);
        match vals[k - 1] {
            Value::Empty => (out, open),
            Value::Number(n) => if open && out.last() == n && n < MAX_TILE_VALUE {
                (out.drop_last().push((n + n) as u32), false)
            } else {
                (out.push(n), true)
            },
        }
    }
}

/// The values of a line after a move: the numbers `packed` places, from the
/// edge the tiles move toward, then empty cells.
pub open spec fn compacted(vals: Seq<Value>) -> Seq<Value> {
    let out = packed(vals, vals.len()).0;
    Seq::new(vals.len(), |j: int| if j < out.len() { Value::Number(out[j]) } else { Value::Empty })
}

/// `i` is the cell of some position of the line.
pub open spec fn on_line(line: Seq<Position>, size: nat, i: int) -> bool {
    exists|j: int| 0 <= j < line.len() && cell_index(size, line[j]) == i
}

/// What cell `j` of the line holds in the middle of the replay, after the
/// actions emitted for its first `k` cells.
pub open spec fn expected(line: Seq<Position>, vals: Seq<Value>, st: Scan, out: Seq<u32>, k: int, j: int) -> Value {
    if j >= k {
        vals[j]
    } else {
        match st.pending {
            Some((t, _)) => if line[j] == t.position {
                t.value
            } else if j == st.focus - 1 {
                Value::Empty
            } else if j < st.focus {
                Value::Number(out[j])
            } else {
                Value::Empty
            },
            None => if j < st.focus {
                Value::Number(out[j])
            } else {
                Value::Empty
            },
        }
    }
}

/// How the cells `w` that the emitted actions leave relate to the classic
/// compaction of the first `k` cells.
pub open spec fn replay_inv(
    line: Seq<Position>,
    vals: Seq<Value>,
    cells: Seq<Value>,
    size: nat,
    st: Scan,
    k: int,
) -> bool {
    let (out, open) = packed(vals, k as nat);
    let w = applied_all(cells, size, st.actions);
    &&& st.focus == out.len()
    &&& st.prev is Some <==> open
    &&& st.prev matches Some((_, pv)) ==> pv == out.last()
    &&& st.pending matches Some((t, _)) ==> t.value == Value::Number(out.last())
    &&& w.len() == cells.len()
    &&& forall|j: int| 0 <= j < line.len() ==> w[cell_index(size, #[trigger] line[j])] == expected(line, vals, st, out, k, j)
    &&& forall|i: int| 0 <= i < cells.len() && !on_line(line, size, i) ==> #[trigger] w[i] == cells[i]
}

proof fn lemma_index_injective(size: nat, p: Position, q: Position)
    requires
        in_grid(size, p),
        in_grid(size, q),
        cell_index(size, p) == cell_index(size, q),
    ensures
        p == q,
{
    let (pr, pc, qr, qc) = (p.row as int, p.col as int, q.row as int, q.col as int);
    if pr < qr {
        assert(pr * size + pc < qr * size + qc) by (nonlinear_arith)
            requires pr < qr, 0 <= pc < size, 0 <= qc, 0 <= pr;
    } else if qr < pr {
        assert(qr * size + qc < pr * size + pc) by (nonlinear_arith)
            requires qr < pr, 0 <= qc < size, 0 <= pc, 0 <= qr;
    }
}

proof fn lemma_index_bound(size: nat, p: Position)
    requires
        in_grid(size, p),
    ensures
        0 <= cell_index(size, p) < size * size,
{
    assert(p.row * size + p.col < size * size) by (nonlinear_arith)
        requires p.row < size, p.col < size;
}

/// Reading a cell after one write.
proof fn lemma_with_value(cells: Seq<Value>, size: nat, p: Position, v: Value)
    requires
        in_grid(size, p),
        cells.len() == size * size,
    ensures
        with_value(cells, size, p, v).len() == cells.len(),
        forall|q: Position| in_grid(size, q) ==> #[trigger] with_value(cells, size, p, v)[cell_index(size, q)] == if q == p {
            v
        } else {
            cells[cell_index(size, q)]
        },
        forall|i: int| 0 <= i < cells.len() && i != cell_index(size, p) ==> #[trigger] with_value(cells, size, p, v)[i] == cells[i],
{
    lemma_index_bound(size, p);
    assert forall|q: Position| in_grid(size, q) implies #[trigger] with_value(cells, size, p, v)[cell_index(size, q)] == if q == p {
        v
    } else {
        cells[cell_index(size, q)]
    } by {
        lemma_index_bound(size, q);
        if q != p && cell_index(size, q) == cell_index(size, p) {
            lemma_index_injective(size, p, q);
        }
    }
}

/// Reading cells after a slide.
proof fn lemma_slide(w: Seq<Value>, size: nat, t: Tile, to: Position)
    requires
        in_grid(size, t.position),
        in_grid(size, to),
        w.len() == size * size,
    ensures
        applied(w, size, Action::SlideTile(t, to)).len() == w.len(),
        forall|q: Position| in_grid(size, q) ==> #[trigger] applied(w, size, Action::SlideTile(t, to))[cell_index(size, q)]
            == if q == to {
            t.value
        } else if q == t.position {
            Value::Empty
        } else {
            w[cell_index(size, q)]
        },
        forall|i: int|
            0 <= i < w.len() && i != cell_index(size, t.position) && i != cell_index(size, to) ==> #[trigger] applied(
                w,
                size,
                Action::SlideTile(t, to),
            )[i] == w[i],
{
    let w1 = with_value(w, size, t.position, Value::Empty);
    lemma_with_value(w, size, t.position, Value::Empty);
    lemma_with_value(w1, size, to, t.value);
}

/// Reading cells after a merge.
proof fn lemma_merge(w: Seq<Value>, size: nat, t1: Tile, t2: Tile, to: Position, v: Value)
    requires
        in_grid(size, t1.position),
        in_grid(size, t2.position),
        in_grid(size, to),
        w.len() == size * size,
    ensures
        applied(w, size, Action::MergeTiles(t1, t2, to, v)).len() == w.len(),
        forall|q: Position| in_grid(size, q) ==> #[trigger] applied(w, size, Action::MergeTiles(t1, t2, to, v))[cell_index(size, q)]
            == if q == to {
            v
        } else if q == t1.position || q == t2.position {
            Value::Empty
        } else {
            w[cell_index(size, q)]
        },
        forall|i: int|
            0 <= i < w.len() && i != cell_index(size, t1.position) && i != cell_index(size, t2.position) && i
                != cell_index(size, to) ==> #[trigger] applied(w, size, Action::MergeTiles(t1, t2, to, v))[i] == w[i],
{
    let w1 = with_value(w, size, t1.position, Value::Empty);
    let w2 = with_value(w1, size, t2.position, Value::Empty);
    lemma_with_value(w, size, t1.position, Value::Empty);
    lemma_with_value(w1, size, t2.position, Value::Empty);
    lemma_with_value(w2, size, to, v);
}

proof fn lemma_replay_step(
    line: Seq<Position>,
    vals: Seq<Value>,
    cells: Seq<Value>,
    size: nat,
    st: Scan,
    k: int,
)
    requires
        line.no_duplicates(),
        forall|j: int| 0 <= j < line.len() ==> in_grid(size, #[trigger] line[j]),
        cells.len() == size * size,
        vals == values_along(cells, size, line),
        0 <= k < line.len(),
        scan_inv(line, st, k),
        replay_inv(line, vals, cells, size, st, k),
    ensures
        replay_inv(line, vals, cells, size, scan_step(line, vals, st, k), k + 1),
{
    let nx = scan_step(line, vals, st, k);
    let (out, open) = packed(vals, k as nat);
    let (out2, open2) = packed(vals, (k + 1) as nat);
    let w = applied_all(cells, size, st.actions);
    let w2 = applied_all(cells, size, nx.actions);
    assert(vals[k] == cells[cell_index(size, line[k])]);
    match vals[k] {
        Value::Empty => {
            assert forall|j: int| 0 <= j < line.len() implies w2[cell_index(size, #[trigger] line[j])] == expected(
                line,
                vals,
                nx,
                out2,
                k + 1,
                j,
            ) by {
                if j == k {
                    if let Some((t, _)) = st.pending {
                        let c = choose|c: int| st.focus <= c < k && t.position == line[c] && crate::line::sources_before(line, st.actions, c);
                        assert(line[c] != line[k]);
                    }
                }
            }
        },
        Value::Number(n) => {
            let here = Tile { value: Value::Number(n), position: line[k] };
            let slot = line[st.focus as int];
            assert(in_grid(size, line[k]));
            match st.prev {
                Some((ps, pv)) if pv == n && pv < MAX_TILE_VALUE => {
                    let src = match st.pending {
                        Some((t, _)) => t,
                        None => Tile { value: Value::Number(pv), position: line[ps as int] },
                    };
                    let to = line[ps as int];
                    let m = Action::MergeTiles(src, here, to, Value::Number((pv + n) as u32));
                    assert(nx.actions == st.actions.push(m));
                    assert(nx.actions.drop_last() =~= st.actions);
                    assert(w2 == applied(w, size, m));
                    let c = match st.pending {
                        Some((t, _)) => choose|c: int| st.focus <= c < k && t.position == line[c] && crate::line::sources_before(line, st.actions, c),
                        None => ps as int,
                    };
                    assert(src.position == line[c]);
                    assert(in_grid(size, line[c]));
                    assert(in_grid(size, to));
                    lemma_merge(w, size, src, here, to, Value::Number((pv + n) as u32));
                    assert(out2 == out.drop_last().push((n + n) as u32));
                    assert forall|j: int| 0 <= j < line.len() implies w2[cell_index(size, #[trigger] line[j])]
                        == expected(line, vals, nx, out2, k + 1, j) by {
                        assert(in_grid(size, line[j]));
                        if j != k && line[j] == line[k] {
                        }
                        if j != c && line[j] == line[c] {
                        }
                        if j != ps && line[j] == line[ps as int] {
                        }
                    }
                    assert forall|i: int| 0 <= i < cells.len() && !on_line(line, size, i) implies #[trigger] w2[i]
                        == cells[i] by {
                        if i == cell_index(size, src.position) {
                            assert(0 <= c < line.len() && cell_index(size, line[c]) == i);
                        }
                        if i == cell_index(size, here.position) {
                            assert(0 <= k < line.len() && cell_index(size, line[k]) == i);
                        }
                        if i == cell_index(size, to) {
                            assert(0 <= ps < line.len() && cell_index(size, line[ps as int]) == i);
                        }
                    }
                },
                _ => {
                    assert(out2 == out.push(n));
                    if line[k] != slot {
                        assert(st.focus < k);
                        match st.pending {
                            Some((t, p)) => {
                                let c = choose|c: int| st.focus <= c < k && t.position == line[c] && crate::line::sources_before(line, st.actions, c);
                                let a = Action::SlideTile(t, p);
                                assert(nx.actions == st.actions.push(a));
                                assert(nx.actions.drop_last() =~= st.actions);
                                assert(w2 == applied(w, size, a));
                                assert(in_grid(size, line[c]));
                                assert(in_grid(size, line[st.focus - 1]));
                                lemma_slide(w, size, t, p);
                                assert forall|j: int| 0 <= j < line.len() implies w2[cell_index(size, #[trigger] line[j])]
                                    == expected(line, vals, nx, out2, k + 1, j) by {
                                    assert(in_grid(size, line[j]));
                                    if j != k && line[j] == line[k] {
                                    }
                                    if j != c && line[j] == line[c] {
                                    }
                                    if j != st.focus - 1 && line[j] == line[st.focus - 1] {
                                    }
                                    if j != st.focus && line[j] == line[st.focus as int] {
                                    }
                                }
                                assert forall|i: int| 0 <= i < cells.len() && !on_line(line, size, i) implies #[trigger] w2[i]
                                    == cells[i] by {
                                    if i == cell_index(size, t.position) {
                                        assert(0 <= c < line.len() && cell_index(size, line[c]) == i);
                                    }
                                    if i == cell_index(size, p) {
                                        assert(0 <= st.focus - 1 < line.len() && cell_index(size, line[st.focus - 1]) == i);
                                    }
                                }
                            },
                            None => {
                                assert(nx.actions == st.actions);
                                assert forall|j: int| 0 <= j < line.len() implies w2[cell_index(size, #[trigger] line[j])]
                                    == expected(line, vals, nx, out2, k + 1, j) by {
                                    if j != k && line[j] == line[k] {
                                    }
                                }
                            },
                        }
                    } else {
                        assert(k == st.focus);
                        if let Some((t, p)) = st.pending {
                            let c = choose|c: int| st.focus <= c < k && t.position == line[c] && crate::line::sources_before(line, st.actions, c);
                        }
                        assert(nx.actions == st.actions);
                    }
                },
            }
        },
    }
}

proof fn lemma_replay_inv(line: Seq<Position>, vals: Seq<Value>, cells: Seq<Value>, size: nat, k: nat)
    requires
        line.no_duplicates(),
        forall|j: int| 0 <= j < line.len() ==> in_grid(size, #[trigger] line[j]),
        cells.len() == size * size,
        vals == values_along(cells, size, line),
        k <= line.len(),
    ensures
        scan_inv(line, scan(line, vals, k), k as int),
        replay_inv(line, vals, cells, size, scan(line, vals, k), k as int),
    decreases k,
{
    crate::line::lemma_scan_inv(line, vals, k);
    if k > 0 {
        lemma_replay_inv(line, vals, cells, size, (k - 1) as nat);
        lemma_replay_step(line, vals, cells, size, scan(line, vals, (k - 1) as nat), k - 1);
    } else {
        let st = scan(line, vals, 0);
        assert(st.actions.len() == 0);
        assert forall|j: int| 0 <= j < line.len() implies cells[cell_index(size, #[trigger] line[j])] == expected(
            line,
            vals,
            st,
            Seq::empty(),
            0,
            j,
        ) by {
            assert(vals[j] == cells[cell_index(size, line[j])]);
        }
    }
}

/// Carrying out the actions that compact a line leaves on that line the
/// classic compaction of its values (equal neighbours merge once, the largest
/// tiles never, everything moves toward the start) and changes no other cell.
pub proof fn lemma_line_replay(line: Seq<Position>, cells: Seq<Value>, size: nat)
    requires
        line.no_duplicates(),
        forall|j: int| 0 <= j < line.len() ==> in_grid(size, #[trigger] line[j]),
        cells.len() == size * size,
    ensures
        ({
            let vals = values_along(cells, size, line);
            let w = applied_all(cells, size, line_actions(line, vals));
            &&& w.len() == cells.len()
            &&& forall|j: int| 0 <= j < line.len() ==> w[cell_index(size, #[trigger] line[j])] == compacted(vals)[j]
            &&& forall|i: int| 0 <= i < cells.len() && !on_line(line, size, i) ==> #[trigger] w[i] == cells[i]
        }),
{
    let vals = values_along(cells, size, line);
    let n = line.len();
    lemma_replay_inv(line, vals, cells, size, n);
    let st = scan(line, vals, n);
    let (out, open) = packed(vals, n);
    let w = applied_all(cells, size, st.actions);
    let acts = line_actions(line, vals);
    let w2 = applied_all(cells, size, acts);
    match st.pending {
        Some((t, p)) => {
            let c = choose|c: int| st.focus <= c < n && t.position == line[c] && crate::line::sources_before(line, st.actions, c);
            let a = Action::SlideTile(t, p);
            assert(acts == st.actions.push(a));
            assert(acts.drop_last() =~= st.actions);
            assert(w2 == applied(w, size, a));
            assert(in_grid(size, line[c]));
            assert(in_grid(size, line[st.focus - 1]));
            lemma_slide(w, size, t, p);
            assert forall|j: int| 0 <= j < line.len() implies w2[cell_index(size, #[trigger] line[j])] == compacted(vals)[j] by {
                assert(in_grid(size, line[j]));
                if j != c && line[j] == line[c] {
                }
                if j != st.focus - 1 && line[j] == line[st.focus - 1] {
                }
            }
            assert forall|i: int| 0 <= i < cells.len() && !on_line(line, size, i) implies #[trigger] w2[i] == cells[i] by {
                if i == cell_index(size, t.position) {
                    assert(0 <= c < line.len() && cell_index(size, line[c]) == i);
                }
                if i == cell_index(size, p) {
                    assert(0 <= st.focus - 1 < line.len() && cell_index(size, line[st.focus - 1]) == i);
                }
            }
        },
        None => {
            assert(acts == st.actions);
        },
    }
}

proof fn lemma_applied_all_concat(cells: Seq<Value>, size: nat, a: Seq<Action>, b: Seq<Action>)
    ensures
        applied_all(cells, size, a + b) == applied_all(applied_all(cells, size, a), size, b),
    decreases b.len(),
{
    if b.len() > 0 {
        lemma_applied_all_concat(cells, size, a, b.drop_last());
        assert((a + b).drop_last() =~= a + b.drop_last());
        assert((a + b).last() == b.last());
    } else {
        assert(a + b =~= a);
    }
}

proof fn lemma_lines_apart(size: nat, d: Direction, i1: nat, i2: nat, j1: int, j2: int)
    requires
        i1 < size <= usize::MAX,
        i2 < size,
        i1 != i2,
        0 <= j1 < size,
        0 <= j2 < size,
    ensures
        line_of(size, d, i1)[j1] != line_of(size, d, i2)[j2],
{
}

proof fn lemma_plan_replay(cells: Seq<Value>, size: nat, d: Direction, n: nat)
    requires
        n <= size <= usize::MAX,
        cells.len() == size * size,
    ensures
        ({
            let w = applied_all(cells, size, plan_lines(cells, size, d, n));
            &&& w.len() == cells.len()
            &&& forall|i: int, j: int|
                0 <= i < n && 0 <= j < size ==> w[cell_index(size, #[trigger] line_of(size, d, i as nat)[j])]
                    == compacted(values_along(cells, size, line_of(size, d, i as nat)))[j]
            &&& forall|i: int, j: int|
                n <= i < size && 0 <= j < size ==> w[cell_index(size, #[trigger] line_of(size, d, i as nat)[j])]
                    == cells[cell_index(size, line_of(size, d, i as nat)[j])]
        }),
    decreases n,
{
    if n > 0 {
        let m = (n - 1) as nat;
        lemma_plan_replay(cells, size, d, m);
        let line = line_of(size, d, m);
        let vals = values_along(cells, size, line);
        let before = plan_lines(cells, size, d, m);
        let w1 = applied_all(cells, size, before);
        lemma_line_of(size, d, m);
        lemma_applied_all_concat(cells, size, before, line_actions(line, vals));
        assert(values_along(w1, size, line) =~= vals) by {
            assert forall|j: int| 0 <= j < line.len() implies #[trigger] values_along(w1, size, line)[j] == vals[j] by {
                assert(w1[cell_index(size, line_of(size, d, m as int as nat)[j])] == cells[cell_index(
                    size,
                    line_of(size, d, m as int as nat)[j],
                )]);
            }
        }
        lemma_line_replay(line, w1, size);
        let w = applied_all(cells, size, plan_lines(cells, size, d, n));
        assert(w == applied_all(w1, size, line_actions(line, vals)));
        assert forall|i: int, j: int| 0 <= i < size && i != m && 0 <= j < size implies w[cell_index(
            size,
            #[trigger] line_of(size, d, i as nat)[j],
        )] == w1[cell_index(size, line_of(size, d, i as nat)[j])] by {
            let p = line_of(size, d, i as nat)[j];
            lemma_line_of(size, d, i as nat);
            lemma_index_bound(size, p);
            if on_line(line, size, cell_index(size, p)) {
                let j2 = choose|j2: int| 0 <= j2 < line.len() && cell_index(size, line[j2]) == cell_index(size, p);
                lemma_index_injective(size, line[j2], p);
                lemma_lines_apart(size, d, m, i as nat, j2, j);
            }
        }
        assert forall|i: int, j: int| 0 <= i < n && 0 <= j < size implies w[cell_index(
            size,
            #[trigger] line_of(size, d, i as nat)[j],
        )] == compacted(values_along(cells, size, line_of(size, d, i as nat)))[j] by {
            if i == m {
                assert(line_of(size, d, i as nat) == line);
            }
        }
    }
}

/// After a move in direction `d`, every line of that direction holds the
/// classic compaction of the values it held before.
pub proof fn lemma_move_compacts_lines(b: Board, d: Direction)
    requires
        b.wf(),
    ensures
        forall|i: int, j: int|
            0 <= i < b.size && 0 <= j < b.size ==> applied_all(b.tiles@, b.size as nat, b.plan(d))[cell_index(
                b.size as nat,
                #[trigger] line_of(b.size as nat, d, i as nat)[j],
            )] == compacted(b.values_on(line_of(b.size as nat, d, i as nat)))[j],
{
    lemma_plan_replay(b.tiles@, b.size as nat, d, b.size as nat);
}

proof fn lemma_packed_valid(vals: Seq<Value>, k: nat)
    requires
        k <= vals.len(),
        forall|j: int| 0 <= j < vals.len() ==> (#[trigger] vals[j]).is_valid(),
    ensures
        forall|x: int| 0 <= x < packed(vals, k).0.len() ==> Value::Number(#[trigger] packed(vals, k).0[x]).is_valid(),
        packed(vals, k).1 ==> packed(vals, k).0.len() > 0,
    decreases k,
{
    if k > 0 {
        lemma_packed_valid(vals, (k - 1) as nat);
        let (out, open) = packed(vals, (k - 1) as nat);
        let out2 = packed(vals, k).0;
        assert(vals[k - 1].is_valid());
        if let Value::Number(n) = vals[k - 1] {
            if open && out.last() == n && n < MAX_TILE_VALUE {
                let e = choose|e: nat| 1 <= e <= 11 && n == pow2(e);
                reveal_with_fuel(pow2, 12);
                if e >= 11 {
                    lemma_pow2_monotone(11, e);
                }
                assert(pow2(e + 1) == n + n);
                assert(out2 == out.drop_last().push((n + n) as u32));
                assert forall|x: int| 0 <= x < out2.len() implies Value::Number(#[trigger] out2[x]).is_valid() by {
                    if x == out2.len() - 1 {
                        assert(1 <= e + 1 <= 11 && out2[x] == pow2((e + 1) as nat));
                    } else {
                        assert(out2[x] == out[x]);
                    }
                }
            } else {
                assert(out2 == out.push(n));
                assert forall|x: int| 0 <= x < out2.len() implies Value::Number(#[trigger] out2[x]).is_valid() by {
                    if x < out.len() {
                        assert(out2[x] == out[x]);
                    }
                }
            }
        }
    }
}

/// Every cell of the board is one that play can produce.
pub open spec fn all_valid(cells: Seq<Value>) -> bool {
    forall|x: int| 0 <= x < cells.len() ==> (#[trigger] cells[x]).is_valid()
}

/// A move keeps every cell valid: merges only ever double a tile below the
/// largest value.
pub proof fn lemma_move_keeps_valid(b: Board, d: Direction)
    requires
        b.wf(),
        all_valid(b.tiles@),
    ensures
        all_valid(applied_all(b.tiles@, b.size as nat, b.plan(d))),
{
    let size = b.size as nat;
    let cells = b.tiles@;
    let w = applied_all(cells, size, b.plan(d));
    lemma_plan_replay(cells, size, d, size);
    assert forall|x: int| 0 <= x < w.len() implies (#[trigger] w[x]).is_valid() by {
        assert(size > 0) by (nonlinear_arith)
            requires 0 <= x < size * size;
        let (r, c) = (x / size as int, x % size as int);
        assert(0 <= r < size) by (nonlinear_arith)
            requires size > 0, 0 <= x < size * size, r == x / size as int;
        assert(x == r * size + c) by (nonlinear_arith)
            requires size > 0, r == x / size as int, c == x % size as int;
        let p = Position { row: r as usize, col: c as usize };
        let (i, j) = match d {
            Direction::Left => (r, c),
            Direction::Right => (r, size - 1 - c),
            Direction::Up => (c, r),
            Direction::Down => (c, size - 1 - r),
        };
        let line = line_of(size, d, i as nat);
        assert(line[j] == p);
        assert(cell_index(size, p) == x);
        let vals = b.values_on(line);
        lemma_line_of(size, d, i as nat);
        assert forall|y: int| 0 <= y < vals.len() implies (#[trigger] vals[y]).is_valid() by {
            lemma_index_bound(size, line[y]);
        }
        lemma_packed_valid(vals, vals.len());
        assert(w[x] == compacted(vals)[j]);
    }
}

} // verus!
