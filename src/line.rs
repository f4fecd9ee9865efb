use vstd::prelude::*;

use crate::action::{dest, positions, sources, Action};
use crate::tile::position::Position;
use crate::tile::value::{merged, Value, MAX_TILE_VALUE};
use crate::tile::Tile;

verus! {

/// Where the scan of one line stands: the next free slot, the slot and
/// number of the last tile placed (unless it came out of a merge), the slide
/// held back, and the actions emitted so far.
pub struct Scan {
    pub focus: nat,
    pub prev: Option<(nat, u32)>,
    pub pending: Option<(Tile, Position)>,
    pub actions: Seq<Action>,
}

/// The scan before any cell.
pub open spec fn scan_start() -> Scan {
    Scan { focus: 0, prev: None, pending: None, actions: Seq::empty() }
}

/// The slide held back, if any, appended to `actions`.
pub open spec fn flushed(actions: Seq<Action>, pending: Option<(Tile, Position)>) -> Seq<Action> {
    match pending {
        Some((t, to)) => actions.push(Action::SlideTile(t, to)),
        None => actions,
    }
}

/// The scan after cell `k` of the line.
pub open spec fn scan_step(line: Seq<Position>, vals: Seq<Value>, st: Scan, k: int) -> Scan {
    match vals[k] {
        Value::Empty => st,
        Value::Number(n) => {
            let here = Tile { value: Value::Number(n), position: line[k] };
            let slot = line[st.focus as int];
            match st.prev {
                Some((ps, pv)) if pv == n && pv < MAX_TILE_VALUE => {
                    let src = match st.pending {
                        Some((t, _)) => t,
                        None => Tile { value: Value::Number(pv), position: line[ps as int] },
                    };
                    let to = match st.pending {
                        Some((_, p)) => p,
                        None => line[ps as int],
                    };
                    let m = Action::MergeTiles(src, here, to, merged(Value::Number(pv), here.value));
                    Scan { focus: st.focus, prev: None, pending: None, actions: st.actions.push(m) }
                },
                _ => {
                    if line[k] != slot {
                        Scan {
                            focus: st.focus + 1,
                            prev: Some((st.focus, n)),
                            pending: Some((here, slot)),
                            actions: flushed(st.actions, st.pending),
                        }
                    } else {
                        Scan {
                            focus: st.focus + 1,
                            prev: Some((st.focus, n)),
                            pending: st.pending,
                            actions: st.actions,
                        }
                    }
                },
            }
        },
    }
}

/// The scan after the first `k` cells of the line.
pub open spec fn scan(line: Seq<Position>, vals: Seq<Value>, k: nat) -> Scan
    decreases k,
{
    if k == 0 {
        scan_start()
    } else {
        scan_step(line, vals, scan(line, vals, (k - 1) as nat), k - 1)
    }
}

/// The actions that compact one line holding `vals` along `line`.
pub open spec fn line_actions(line: Seq<Position>, vals: Seq<Value>) -> Seq<Action> {
    let st = scan(line, vals, line.len());
    flushed(st.actions, st.pending)
}

/// `p` is one of the first `b` positions of the line.
pub open spec fn on_prefix(line: Seq<Position>, p: Position, b: int) -> bool {
    exists|j: int| 0 <= j < b && line[j] == p
}

/// Every source of `acts` is one of the first `b` positions of the line.
pub open spec fn sources_before(line: Seq<Position>, acts: Seq<Action>, b: int) -> bool {
    forall|i: int, p: Position|
        0 <= i < acts.len() && #[trigger] sources(acts[i]).contains(p) ==> on_prefix(line, p, b)
}

/// Every destination of `acts` is one of the first `b` positions of the line.
pub open spec fn dests_before(line: Seq<Position>, acts: Seq<Action>, b: int) -> bool {
    forall|i: int| 0 <= i < acts.len() ==> on_prefix(line, dest(#[trigger] acts[i]), b)
}

/// No two actions share a destination or a source, and a merge consumes two
/// different tiles.
pub open spec fn is_partition(acts: Seq<Action>) -> bool {
    &&& forall|i: int, j: int|
        0 <= i < j < acts.len() ==> dest(#[trigger] acts[i]) != dest(#[trigger] acts[j])
            && sources(acts[i]).disjoint(sources(acts[j]))
    &&& forall|i: int|
        0 <= i < acts.len() ==> (#[trigger] acts[i] matches Action::MergeTiles(t1, t2, _, _) ==> t1.position
            != t2.position)
}

/// What holds of the scan after the first `k` cells of a line without
/// repeated positions.
pub open spec fn scan_inv(line: Seq<Position>, st: Scan, k: int) -> bool {
    &&& st.focus <= k
    &&& is_partition(st.actions)
    &&& st.prev matches Some((ps, _)) ==> st.focus >= 1 && ps == st.focus - 1
    &&& st.prev is None ==> st.pending is None && sources_before(line, st.actions, k)
        && dests_before(line, st.actions, st.focus as int)
    &&& st.prev is Some ==> dests_before(line, st.actions, st.focus - 1)
    &&& st.prev is Some && st.pending is None ==> sources_before(line, st.actions, st.focus - 1)
    &&& st.pending matches Some((t, p)) ==> p == line[st.focus - 1] && exists|c: int|
        st.focus <= c < k && t.position == line[c] && sources_before(line, st.actions, c)
}

proof fn lemma_push_partition(line: Seq<Position>, acts: Seq<Action>, a: Action, b: int, db: int)
    requires
        line.no_duplicates(),
        0 <= db < line.len(),
        0 <= b <= line.len(),
        is_partition(acts),
        sources_before(line, acts, b),
        dests_before(line, acts, db),
        dest(a) == line[db],
        forall|p: Position| #[trigger] sources(a).contains(p) ==> exists|j: int| b <= j < line.len() && line[j] == p,
        a matches Action::MergeTiles(t1, t2, _, _) ==> t1.position != t2.position,
    ensures
        is_partition(acts.push(a)),
{
    let n = acts.push(a);
    assert forall|i: int, j: int| 0 <= i < j < n.len() implies dest(#[trigger] n[i]) != dest(#[trigger] n[j])
        && sources(n[i]).disjoint(sources(n[j])) by {
        if j == acts.len() {
            assert(n[i] == acts[i]);
            let w = choose|w: int| 0 <= w < db && line[w] == dest(acts[i]);
            assert(dest(n[i]) != dest(n[j]));
            assert forall|p: Position| sources(n[i]).contains(p) implies !sources(n[j]).contains(p) by {
                if sources(n[j]).contains(p) {
                    assert(sources(acts[i]).contains(p));
                    let u = choose|u: int| 0 <= u < b && line[u] == p;
                    let v = choose|v: int| b <= v < line.len() && line[v] == p;
                }
            }
        } else {
            assert(n[i] == acts[i] && n[j] == acts[j]);
        }
    }
    assert forall|i: int| 0 <= i < n.len() implies (#[trigger] n[i] matches Action::MergeTiles(t1, t2, _, _)
        ==> t1.position != t2.position) by {
        if i < acts.len() {
            assert(n[i] == acts[i]);
        }
    }
}

proof fn lemma_before_mono(line: Seq<Position>, acts: Seq<Action>, b1: int, b2: int)
    requires
        b1 <= b2,
    ensures
        sources_before(line, acts, b1) ==> sources_before(line, acts, b2),
        dests_before(line, acts, b1) ==> dests_before(line, acts, b2),
{
    if sources_before(line, acts, b1) {
        assert forall|i: int, p: Position|
            0 <= i < acts.len() && #[trigger] sources(acts[i]).contains(p) implies on_prefix(line, p, b2) by {
            let j = choose|j: int| 0 <= j < b1 && line[j] == p;
        }
    }
    if dests_before(line, acts, b1) {
        assert forall|i: int| 0 <= i < acts.len() implies on_prefix(line, dest(#[trigger] acts[i]), b2) by {
            let j = choose|j: int| 0 <= j < b1 && line[j] == dest(acts[i]);
        }
    }
}

proof fn lemma_before_push(line: Seq<Position>, acts: Seq<Action>, a: Action, b: int, db: int)
    requires
        sources_before(line, acts, b),
        dests_before(line, acts, db),
        forall|p: Position| #[trigger] sources(a).contains(p) ==> exists|j: int| 0 <= j < b && line[j] == p,
        exists|j: int| 0 <= j < db && line[j] == dest(a),
    ensures
        sources_before(line, acts.push(a), b),
        dests_before(line, acts.push(a), db),
{
    let n = acts.push(a);
    assert forall|i: int, p: Position|
        0 <= i < n.len() && #[trigger] sources(n[i]).contains(p) implies exists|j: int|
        0 <= j < b && line[j] == p by {
        if i < acts.len() {
            assert(n[i] == acts[i]);
        }
    }
    assert forall|i: int| 0 <= i < n.len() implies exists|j: int| 0 <= j < db && line[j] == #[trigger] dest(n[i]) by {
        if i < acts.len() {
            assert(n[i] == acts[i]);
        }
    }
}

proof fn lemma_scan_step_inv(line: Seq<Position>, vals: Seq<Value>, st: Scan, k: int)
    requires
        line.no_duplicates(),
        vals.len() == line.len(),
        0 <= k < line.len(),
        scan_inv(line, st, k),
    ensures
        scan_inv(line, scan_step(line, vals, st, k), k + 1),
{
    let nx = scan_step(line, vals, st, k);
    match vals[k] {
        Value::Empty => {
            lemma_before_mono(line, st.actions, k, k + 1);
            if let Some((t, p)) = st.pending {
                let c = choose|c: int| st.focus <= c < k && t.position == line[c] && sources_before(line, st.actions, c);
                assert(st.focus <= c < k + 1 && t.position == line[c] && sources_before(line, st.actions, c));
            }
        },
        Value::Number(n) => {
            let here = Tile { value: Value::Number(n), position: line[k] };
            let slot = line[st.focus as int];
            match st.prev {
                Some((ps, pv)) if pv == n && pv < MAX_TILE_VALUE => {
                    let (src, b) = match st.pending {
                        Some((t, _)) => {
                            let c = choose|c: int| st.focus <= c < k && t.position == line[c] && sources_before(line, st.actions, c);
                            (t, c)
                        },
                        None => (Tile { value: Value::Number(pv), position: line[ps as int] }, ps as int),
                    };
                    let m = nx.actions.last();
                    assert(nx.actions == st.actions.push(m));
                    assert(src.position == line[b]);
                    assert(sources(m) == set![line[b], line[k]]);
                    assert(dest(m) == line[ps as int]);
                    assert forall|p: Position| #[trigger] sources(m).contains(p) implies exists|j: int|
                        b <= j < line.len() && line[j] == p by {
                        if p == line[b] {
                            assert(b <= b < line.len() && line[b] == p);
                        } else {
                            assert(b <= k < line.len() && line[k] == p);
                        }
                    }
                    assert(line[b] != line[k]);
                    lemma_push_partition(line, st.actions, m, b, ps as int);
                    lemma_before_mono(line, st.actions, b, k + 1);
                    lemma_before_mono(line, st.actions, ps as int, st.focus as int);
                    assert forall|p: Position| #[trigger] sources(m).contains(p) implies exists|j: int|
                        0 <= j < k + 1 && line[j] == p by {
                        if p == line[b] {
                            assert(0 <= b < k + 1 && line[b] == p);
                        } else {
                            assert(0 <= k < k + 1 && line[k] == p);
                        }
                    }
                    assert(0 <= ps < st.focus && line[ps as int] == dest(m));
                    lemma_before_push(line, st.actions, m, k + 1, st.focus as int);
                },
                _ => {
                    if line[k] != slot {
                        assert(st.focus < k);
                        match st.pending {
                            Some((t, p)) => {
                                let c = choose|c: int| st.focus <= c < k && t.position == line[c] && sources_before(line, st.actions, c);
                                let a = Action::SlideTile(t, p);
                                assert(nx.actions == st.actions.push(a));
                                assert(sources(a) == set![line[c]]);
                                assert forall|q: Position| #[trigger] sources(a).contains(q) implies exists|j: int|
                                    c <= j < line.len() && line[j] == q by {
                                    assert(c <= c < line.len() && line[c] == q);
                                }
                                lemma_push_partition(line, st.actions, a, c, st.focus - 1);
                                assert forall|q: Position| #[trigger] sources(a).contains(q) implies exists|j: int|
                                    0 <= j < k && line[j] == q by {
                                    assert(0 <= c < k && line[c] == q);
                                }
                                assert(0 <= st.focus - 1 < st.focus && line[st.focus - 1] == dest(a));
                                lemma_before_mono(line, st.actions, c, k);
                                lemma_before_mono(line, st.actions, st.focus - 1, st.focus as int);
                                lemma_before_push(line, st.actions, a, k, st.focus as int);
                                assert(nx.focus <= k && here.position == line[k] && sources_before(line, nx.actions, k));
                            },
                            None => {
                                if let Some((ps, _)) = st.prev {
                                    lemma_before_mono(line, st.actions, ps as int, k);
                                    lemma_before_mono(line, st.actions, st.focus - 1, st.focus as int);
                                }
                                assert(nx.focus <= k && here.position == line[k] && sources_before(line, nx.actions, k));
                            },
                        }
                    } else {
                        assert(line[k] == line[st.focus as int]);
                        assert(k == st.focus);
                        if let Some((t, p)) = st.pending {
                            let c = choose|c: int| st.focus <= c < k && t.position == line[c] && sources_before(line, st.actions, c);
                        }
                        if let Some((ps, _)) = st.prev {
                            lemma_before_mono(line, st.actions, ps as int, k);
                            lemma_before_mono(line, st.actions, st.focus - 1, st.focus as int);
                        }
                    }
                },
            }
        },
    }
}

pub(crate) proof fn lemma_scan_inv(line: Seq<Position>, vals: Seq<Value>, k: nat)
    requires
        line.no_duplicates(),
        vals.len() == line.len(),
        k <= line.len(),
    ensures
        scan_inv(line, scan(line, vals, k), k as int),
    decreases k,
{
    if k > 0 {
        lemma_scan_inv(line, vals, (k - 1) as nat);
        lemma_scan_step_inv(line, vals, scan(line, vals, (k - 1) as nat), k - 1);
    }
}

/// Compacting one line that names no position twice is a partition: no
/// destination receives the outcome of two actions, no tile is consumed by two
/// actions (nor twice by one merge), and every action stays on the line.
pub proof fn lemma_line_actions_partition(line: Seq<Position>, vals: Seq<Value>)
    requires
        line.no_duplicates(),
        vals.len() == line.len(),
    ensures
        is_partition(line_actions(line, vals)),
        forall|i: int, p: Position|
            0 <= i < line_actions(line, vals).len() && #[trigger] positions(line_actions(line, vals)[i]).contains(p)
                ==> line.contains(p),
{
    let n = line.len() as int;
    let st = scan(line, vals, line.len());
    lemma_scan_inv(line, vals, line.len());
    let acts = line_actions(line, vals);
    lemma_before_mono(line, st.actions, st.focus as int, n);
    lemma_before_mono(line, st.actions, st.focus - 1, n);
    match st.pending {
        Some((t, p)) => {
            let c = choose|c: int| st.focus <= c < n && t.position == line[c] && sources_before(line, st.actions, c);
            let a = Action::SlideTile(t, p);
            assert(sources(a) == set![line[c]]);
            assert forall|q: Position| #[trigger] sources(a).contains(q) implies exists|j: int|
                c <= j < line.len() && line[j] == q by {
                assert(c <= c < line.len() && line[c] == q);
            }
            lemma_push_partition(line, st.actions, a, c, st.focus - 1);
            lemma_before_mono(line, st.actions, c, n);
            assert forall|q: Position| #[trigger] sources(a).contains(q) implies exists|j: int|
                0 <= j < n && line[j] == q by {
                assert(0 <= c < n && line[c] == q);
            }
            assert(0 <= st.focus - 1 < n && line[st.focus - 1] == dest(a));
            lemma_before_push(line, st.actions, a, n, n);
        },
        None => {
            if let Some((ps, _)) = st.prev {
                lemma_before_mono(line, st.actions, ps as int, n);
            }
        },
    }
    assert(sources_before(line, acts, n) && dests_before(line, acts, n));
    assert forall|i: int, p: Position|
        0 <= i < acts.len() && #[trigger] positions(acts[i]).contains(p) implies line.contains(p) by {
        if p == dest(acts[i]) {
            assert(on_prefix(line, dest(acts[i]), n));
        } else {
            assert(sources(acts[i]).contains(p));
        }
        let j = choose|j: int| 0 <= j < n && line[j] == p;
    }
}

} // verus!
