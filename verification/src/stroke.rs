//! Index planning for strokes: which sampled points survive simplification,
//! and which points shape each curve segment when a stroke is drawn smoothly.
//!
//! Simplification follows Ramer-Douglas-Peucker: a run of points from `lo` to
//! `hi` is replaced by its two ends unless some interior point lies farther
//! than the tolerance from the chord `lo`-`hi`; then the run is split at the
//! farthest such point and both halves are simplified in turn. Measuring the
//! distances is geometry on the points' coordinates, which the caller does:
//! the [`Simplifier`] hands out each run to judge and is told where to split
//! it, if anywhere. Runs are handed out left to right, so the kept indices come
//! out in increasing order.
use vstd::prelude::*;

verus! {

/// Where a simplification stands: `n` points, the runs still to judge (the
/// top of the stack, its last element, is the leftmost run), and the indices
/// of the points kept so far.
pub struct SimplifyState {
    pub n: usize,
    pub stack: Seq<(usize, usize)>,
    pub kept: Seq<usize>,
}

/// A run of at most two points: nothing to judge.
pub open spec fn is_short(r: (usize, usize)) -> bool {
    r.1 - r.0 < 2
}

/// Keeps the first point of each short run on top of the stack, until the top
/// run needs judging or no run is left.
pub open spec fn drop_short_runs(st: SimplifyState) -> SimplifyState
    decreases st.stack.len(),
{
    if st.stack.len() > 0 && is_short(st.stack.last()) {
        drop_short_runs(
            SimplifyState {
                n: st.n,
                stack: st.stack.drop_last(),
                kept: st.kept.push(st.stack.last().0),
            },
        )
    } else {
        st
    }
}

/// The state before any run of `n` points is judged.
pub open spec fn simplify_start(n: usize) -> SimplifyState {
    drop_short_runs(
        SimplifyState {
            n,
            stack: if n >= 2 {
                seq![(0usize, (n - 1) as usize)]
            } else {
                Seq::<(usize, usize)>::empty()
            },
            kept: Seq::<usize>::empty(),
        },
    )
}

/// Every run has been judged.
pub open spec fn simplify_finished(st: SimplifyState) -> bool {
    st.stack.len() == 0
}

/// `k` is an interior point of the run `r`.
pub open spec fn splits(r: (usize, usize), k: usize) -> bool {
    r.0 < k < r.1
}

/// Applies the verdict on the run on top of the stack: split it at an
/// interior point `k` into the runs `lo..k` and `k..hi`, or (`None`) keep only
/// its ends. A split outside the run counts as `None`.
pub open spec fn resolve(st: SimplifyState, split: Option<usize>) -> SimplifyState {
    let r = st.stack.last();
    let rest = st.stack.drop_last();
    if split is Some && splits(r, split->0) {
        let k = split->0;
        drop_short_runs(SimplifyState { n: st.n, stack: rest.push((k, r.1)).push((r.0, k)), kept: st.kept })
    } else {
        drop_short_runs(SimplifyState { n: st.n, stack: rest, kept: st.kept.push(r.0) })
    }
}

/// The state after the verdicts `vs`, in order.
pub open spec fn resolve_all(st: SimplifyState, vs: Seq<Option<usize>>) -> SimplifyState
    decreases vs.len(),
{
    if vs.len() == 0 || simplify_finished(st) {
        st
    } else {
        resolve_all(resolve(st, vs[0]), vs.drop_first())
    }
}

/// The indices of the kept points once every run is judged.
pub open spec fn kept_points(st: SimplifyState) -> Seq<usize> {
    if st.n == 0 {
        Seq::<usize>::empty()
    } else {
        st.kept.push((st.n - 1) as usize)
    }
}

/// The number of interior points of the runs still to judge.
pub open spec fn interior_points(stack: Seq<(usize, usize)>) -> int
    decreases stack.len(),
{
    if stack.len() == 0 {
        0
    } else {
        interior_points(stack.drop_last()) + (stack.last().1 - stack.last().0 - 1)
    }
}

/// `k` is kept already or is the first point of a run still to judge.
pub open spec fn committed(st: SimplifyState, k: usize) -> bool {
    st.kept.contains(k) || exists|j: int| 0 <= j < st.stack.len() && #[trigger] st.stack[j].0 == k
}

/// The first point of the leftmost run still to judge, or the last point.
spec fn frontier(st: SimplifyState) -> int {
    if st.stack.len() > 0 {
        st.stack.last().0 as int
    } else {
        st.n - 1
    }
}

spec fn chained(st: SimplifyState) -> bool {
    &&& st.n >= 1
    &&& runs_ordered(st)
    &&& forall|j: int| 0 < j < st.stack.len() ==> #[trigger] st.stack[j].1 == st.stack[j - 1].0
    &&& st.stack.len() > 0 ==> st.stack[0].1 == st.n - 1
    &&& forall|i: int, j: int| 0 <= i < j < st.kept.len() ==> st.kept[i] < st.kept[j]
    &&& forall|i: int| 0 <= i < st.kept.len() ==> #[trigger] st.kept[i] < frontier(st)
    &&& st.kept.len() == 0 ==> frontier(st) == 0
    &&& st.kept.len() > 0 ==> st.kept[0] == 0
}

proof fn lemma_interior_nonneg(st: SimplifyState)
    requires
        runs_ordered(st),
    ensures
        interior_points(st.stack) >= 0,
    decreases st.stack.len(),
{
    if st.stack.len() > 0 {
        let below = SimplifyState { n: st.n, stack: st.stack.drop_last(), kept: st.kept };
        assert forall|j: int| 0 <= j < below.stack.len() implies #[trigger] below.stack[j].0
            < below.stack[j].1 < below.n by {
            assert(below.stack[j] == st.stack[j]);
        }
        lemma_interior_nonneg(below);
    }
}

/// Removing the top run and keeping its first point preserves the chain.
proof fn lemma_keep_top(st: SimplifyState)
    requires
        chained(st),
        st.stack.len() > 0,
    ensures
        chained(SimplifyState { n: st.n, stack: st.stack.drop_last(), kept: st.kept.push(st.stack.last().0) }),
        forall|k: usize| committed(st, k) ==> #[trigger] committed(
            SimplifyState { n: st.n, stack: st.stack.drop_last(), kept: st.kept.push(st.stack.last().0) },
            k,
        ),
{
    let m = st.stack.len();
    let next = SimplifyState { n: st.n, stack: st.stack.drop_last(), kept: st.kept.push(st.stack.last().0) };
    assert(st.stack.last() == st.stack[m - 1]);
    if m > 1 {
        assert(frontier(next) == st.stack[m - 2].0);
        assert(st.stack[m - 1].1 == st.stack[m - 2].0);
    }
    assert(forall|j: int| 0 <= j < next.stack.len() ==> next.stack[j] == st.stack[j]);
    assert forall|k: usize| committed(st, k) implies #[trigger] committed(next, k) by {
        if st.kept.contains(k) {
            let i = choose|i: int| 0 <= i < st.kept.len() && st.kept[i] == k;
            assert(next.kept[i] == k);
        } else {
            let j = choose|j: int| 0 <= j < st.stack.len() && #[trigger] st.stack[j].0 == k;
            if j == m - 1 {
                assert(next.kept[st.kept.len() as int] == k);
            } else {
                assert(next.stack[j].0 == k);
            }
        }
    }
}

proof fn lemma_drop_short_runs(st: SimplifyState)
    requires
        runs_ordered(st),
    ensures
        runs_ordered(drop_short_runs(st)),
        drop_short_runs(st).n == st.n,
        drop_short_runs(st).stack.len() > 0 ==> !is_short(drop_short_runs(st).stack.last()),
        interior_points(drop_short_runs(st).stack) == interior_points(st.stack),
        chained(st) ==> chained(drop_short_runs(st)),
        forall|k: usize| committed(st, k) ==> #[trigger] committed(drop_short_runs(st), k),
    decreases st.stack.len(),
{
    if st.stack.len() > 0 && is_short(st.stack.last()) {
        let next = SimplifyState { n: st.n, stack: st.stack.drop_last(), kept: st.kept.push(st.stack.last().0) };
        assert(forall|j: int| 0 <= j < next.stack.len() ==> next.stack[j] == st.stack[j]);
        assert(next.stack =~= st.stack.drop_last());
        if chained(st) {
            lemma_keep_top(st);
        } else {
            assert forall|k: usize| committed(st, k) implies #[trigger] committed(next, k) by {
                if st.kept.contains(k) {
                    let i = choose|i: int| 0 <= i < st.kept.len() && st.kept[i] == k;
                    assert(next.kept[i] == k);
                } else {
                    let j = choose|j: int| 0 <= j < st.stack.len() && #[trigger] st.stack[j].0 == k;
                    if j == st.stack.len() - 1 {
                        assert(next.kept[st.kept.len() as int] == k);
                    } else {
                        assert(next.stack[j].0 == k);
                    }
                }
            }
        }
        lemma_drop_short_runs(next);
    }
}

proof fn lemma_resolve(st: SimplifyState, split: Option<usize>)
    requires
        runs_ordered(st),
        st.stack.len() > 0,
        !is_short(st.stack.last()),
    ensures
        runs_ordered(resolve(st, split)),
        resolve(st, split).n == st.n,
        resolve(st, split).stack.len() > 0 ==> !is_short(resolve(st, split).stack.last()),
        interior_points(resolve(st, split).stack) < interior_points(st.stack),
        chained(st) ==> chained(resolve(st, split)),
        forall|k: usize| committed(st, k) ==> #[trigger] committed(resolve(st, split), k),
        split is Some && splits(st.stack.last(), split->0) ==> committed(resolve(st, split), split->0),
{
    let m = st.stack.len();
    let r = st.stack.last();
    let rest = st.stack.drop_last();
    assert(r == st.stack[m - 1]);
    assert(forall|j: int| 0 <= j < rest.len() ==> rest[j] == st.stack[j]);
    assert(st.stack.drop_last() == rest);
    if split is Some && splits(r, split->0) {
        let k = split->0;
        let mid = SimplifyState { n: st.n, stack: rest.push((k, r.1)).push((r.0, k)), kept: st.kept };
        assert(mid.stack.drop_last().drop_last() =~= rest);
        assert(mid.stack.drop_last() =~= rest.push((k, r.1)));
        assert(mid.stack[m - 1] == (k, r.1));
        assert(mid.stack[m as int] == (r.0, k));
        assert(forall|j: int| 0 <= j < rest.len() ==> mid.stack[j] == st.stack[j]);
        if chained(st) {
            assert(frontier(mid) == frontier(st));
        }
        assert forall|kk: usize| committed(st, kk) implies #[trigger] committed(mid, kk) by {
            if !st.kept.contains(kk) {
                let j = choose|j: int| 0 <= j < st.stack.len() && #[trigger] st.stack[j].0 == kk;
                if j == m - 1 {
                    assert(mid.stack[m as int].0 == kk);
                } else {
                    assert(mid.stack[j].0 == kk);
                }
            }
        }
        assert(mid.stack[m - 1].0 == k);
        assert(committed(mid, k));
        assert(interior_points(rest.push((k, r.1))) == interior_points(rest) + (r.1 - k - 1));
        assert(interior_points(mid.stack) == interior_points(rest.push((k, r.1))) + (k - r.0 - 1));
        assert(interior_points(st.stack) == interior_points(rest) + (r.1 - r.0 - 1));
        lemma_drop_short_runs(mid);
    } else {
        let mid = SimplifyState { n: st.n, stack: rest, kept: st.kept.push(r.0) };
        assert(interior_points(st.stack) == interior_points(rest) + (r.1 - r.0 - 1));
        if chained(st) {
            lemma_keep_top(st);
        } else {
            assert forall|kk: usize| committed(st, kk) implies #[trigger] committed(mid, kk) by {
                if st.kept.contains(kk) {
                    let i = choose|i: int| 0 <= i < st.kept.len() && st.kept[i] == kk;
                    assert(mid.kept[i] == kk);
                } else {
                    let j = choose|j: int| 0 <= j < st.stack.len() && #[trigger] st.stack[j].0 == kk;
                    if j == m - 1 {
                        assert(mid.kept[st.kept.len() as int] == kk);
                    } else {
                        assert(mid.stack[j].0 == kk);
                    }
                }
            }
        }
        lemma_drop_short_runs(mid);
    }
}

proof fn lemma_resolve_all(st: SimplifyState, vs: Seq<Option<usize>>)
    requires
        runs_ordered(st),
        st.stack.len() > 0 ==> !is_short(st.stack.last()),
    ensures
        runs_ordered(resolve_all(st, vs)),
        resolve_all(st, vs).n == st.n,
        resolve_all(st, vs).stack.len() > 0 ==> !is_short(resolve_all(st, vs).stack.last()),
        chained(st) ==> chained(resolve_all(st, vs)),
        forall|k: usize| committed(st, k) ==> #[trigger] committed(resolve_all(st, vs), k),
        vs.len() >= interior_points(st.stack) ==> simplify_finished(resolve_all(st, vs)),
    decreases vs.len(),
{
    if vs.len() == 0 || simplify_finished(st) {
        if !simplify_finished(st) {
            let below = SimplifyState { n: st.n, stack: st.stack.drop_last(), kept: st.kept };
            assert forall|j: int| 0 <= j < below.stack.len() implies #[trigger] below.stack[j].0
                < below.stack[j].1 < below.n by {
                assert(below.stack[j] == st.stack[j]);
            }
            lemma_interior_nonneg(below);
        }
    } else {
        lemma_resolve(st, vs[0]);
        lemma_resolve_all(resolve(st, vs[0]), vs.drop_first());
    }
}

proof fn lemma_simplify_start(n: usize)
    ensures
        runs_ordered(simplify_start(n)),
        simplify_start(n).n == n,
        simplify_start(n).stack.len() > 0 ==> !is_short(simplify_start(n).stack.last()),
        n >= 1 ==> chained(simplify_start(n)),
        interior_points(simplify_start(n).stack) == if n >= 2 {
            n - 2
        } else {
            0
        },
{
    let first = SimplifyState {
        n,
        stack: if n >= 2 {
            seq![(0usize, (n - 1) as usize)]
        } else {
            Seq::<(usize, usize)>::empty()
        },
        kept: Seq::<usize>::empty(),
    };
    if n >= 2 {
        assert(first.stack.drop_last() =~= Seq::<(usize, usize)>::empty());
        assert(first.stack.len() == 1);
        assert(first.stack.last() == (0usize, (n - 1) as usize));
        assert(interior_points(Seq::<(usize, usize)>::empty()) == 0);
        assert(interior_points(first.stack) == interior_points(first.stack.drop_last()) + (
        first.stack.last().1 - first.stack.last().0 - 1));
    }
    lemma_drop_short_runs(first);
}

/// `p` lies in a run still to judge.
pub open spec fn in_open_run(st: SimplifyState, p: usize) -> bool {
    exists|j: int| 0 <= j < st.stack.len() && #[trigger] st.stack[j].0 <= p <= st.stack[j].1
}

/// `p` can still be among the kept points: it is kept already, lies in a run
/// still to judge, or is the last point.
pub open spec fn may_be_kept(st: SimplifyState, p: usize) -> bool {
    st.kept.contains(p) || in_open_run(st, p) || p == st.n - 1
}

proof fn lemma_drop_short_runs_shrinks(st: SimplifyState)
    requires
        runs_ordered(st),
    ensures
        drop_short_runs(st).n == st.n,
        forall|p: usize| may_be_kept(drop_short_runs(st), p) ==> #[trigger] may_be_kept(st, p),
        drop_short_runs(st).kept.len() >= st.kept.len(),
        forall|i: int| 0 <= i < st.kept.len() ==> #[trigger] drop_short_runs(st).kept[i] == st.kept[i],
    decreases st.stack.len(),
{
    if st.stack.len() > 0 && is_short(st.stack.last()) {
        let m = st.stack.len();
        let next = SimplifyState { n: st.n, stack: st.stack.drop_last(), kept: st.kept.push(st.stack.last().0) };
        assert(forall|j: int| 0 <= j < next.stack.len() ==> next.stack[j] == st.stack[j]);
        lemma_drop_short_runs_shrinks(next);
        assert(st.stack.last() == st.stack[m - 1]);
        assert forall|p: usize| may_be_kept(next, p) implies #[trigger] may_be_kept(st, p) by {
            if next.kept.contains(p) {
                let i = choose|i: int| 0 <= i < next.kept.len() && next.kept[i] == p;
                if i == st.kept.len() {
                    assert(st.stack[m - 1].0 <= p <= st.stack[m - 1].1);
                } else {
                    assert(st.kept[i] == p);
                }
            } else if in_open_run(next, p) {
                let j = choose|j: int| 0 <= j < next.stack.len() && #[trigger] next.stack[j].0 <= p <= next.stack[j].1;
                assert(next.stack[j] == st.stack[j]);
            }
        }
        assert forall|i: int| 0 <= i < st.kept.len() implies #[trigger] drop_short_runs(st).kept[i]
            == st.kept[i] by {
            assert(next.kept[i] == st.kept[i]);
        }
    }
}

proof fn lemma_resolve_shrinks(st: SimplifyState, split: Option<usize>)
    requires
        runs_ordered(st),
        st.stack.len() > 0,
    ensures
        forall|p: usize| may_be_kept(resolve(st, split), p) ==> #[trigger] may_be_kept(st, p),
        resolve(st, split).n == st.n,
{
    let m = st.stack.len();
    let r = st.stack.last();
    let rest = st.stack.drop_last();
    assert(r == st.stack[m - 1]);
    if split is Some && splits(r, split->0) {
        let k = split->0;
        let mid = SimplifyState { n: st.n, stack: rest.push((k, r.1)).push((r.0, k)), kept: st.kept };
        assert(mid.stack[m - 1] == (k, r.1));
        assert(mid.stack[m as int] == (r.0, k));
        assert(forall|j: int| 0 <= j < m - 1 ==> mid.stack[j] == st.stack[j]);
        assert(runs_ordered(mid));
        lemma_drop_short_runs_shrinks(mid);
        assert forall|p: usize| may_be_kept(mid, p) implies #[trigger] may_be_kept(st, p) by {
            if in_open_run(mid, p) {
                let j = choose|j: int| 0 <= j < mid.stack.len() && #[trigger] mid.stack[j].0 <= p <= mid.stack[j].1;
                if j < m - 1 {
                    assert(mid.stack[j] == st.stack[j]);
                } else {
                    assert(st.stack[m - 1].0 <= p <= st.stack[m - 1].1);
                }
            }
        }
    } else {
        let mid = SimplifyState { n: st.n, stack: rest, kept: st.kept.push(r.0) };
        assert(forall|j: int| 0 <= j < m - 1 ==> mid.stack[j] == st.stack[j]);
        assert(runs_ordered(mid));
        lemma_drop_short_runs_shrinks(mid);
        assert forall|p: usize| may_be_kept(mid, p) implies #[trigger] may_be_kept(st, p) by {
            if mid.kept.contains(p) {
                let i = choose|i: int| 0 <= i < mid.kept.len() && mid.kept[i] == p;
                if i == st.kept.len() {
                    assert(st.stack[m - 1].0 <= p <= st.stack[m - 1].1);
                } else {
                    assert(st.kept[i] == p);
                }
            } else if in_open_run(mid, p) {
                let j = choose|j: int| 0 <= j < mid.stack.len() && #[trigger] mid.stack[j].0 <= p <= mid.stack[j].1;
                assert(mid.stack[j] == st.stack[j]);
            }
        }
    }
}

proof fn lemma_resolve_all_shrinks(st: SimplifyState, vs: Seq<Option<usize>>)
    requires
        runs_ordered(st),
        st.stack.len() > 0 ==> !is_short(st.stack.last()),
    ensures
        forall|p: usize| may_be_kept(resolve_all(st, vs), p) ==> #[trigger] may_be_kept(st, p),
    decreases vs.len(),
{
    if !(vs.len() == 0 || simplify_finished(st)) {
        lemma_resolve(st, vs[0]);
        lemma_resolve_shrinks(st, vs[0]);
        lemma_resolve_all_shrinks(resolve(st, vs[0]), vs.drop_first());
    }
}

/// In a chained state the runs below the top lie to the right of it.
proof fn lemma_runs_to_the_right(st: SimplifyState, j: int, i: int)
    requires
        chained(st),
        0 <= j < i < st.stack.len(),
    ensures
        st.stack[i].1 <= st.stack[j].0,
    decreases i - j,
{
    if i > j + 1 {
        lemma_runs_to_the_right(st, j + 1, i);
        assert(st.stack[j + 1].1 == st.stack[j].0);
    }
}

proof fn lemma_drop_short_runs_grows(st: SimplifyState)
    requires
        chained(st),
    ensures
        forall|p: usize| may_be_kept(st, p) ==> #[trigger] may_be_kept(drop_short_runs(st), p),
    decreases st.stack.len(),
{
    if st.stack.len() > 0 && is_short(st.stack.last()) {
        let m = st.stack.len();
        let next = SimplifyState { n: st.n, stack: st.stack.drop_last(), kept: st.kept.push(st.stack.last().0) };
        lemma_keep_top(st);
        lemma_drop_short_runs_grows(next);
        assert(drop_short_runs(st) == drop_short_runs(next));
        assert(st.stack.last() == st.stack[m - 1]);
        assert forall|p: usize| may_be_kept(st, p) implies #[trigger] may_be_kept(next, p) by {
            if st.kept.contains(p) {
                let i = choose|i: int| 0 <= i < st.kept.len() && st.kept[i] == p;
                assert(next.kept[i] == p);
            } else if in_open_run(st, p) {
                let j = choose|j: int| 0 <= j < st.stack.len() && #[trigger] st.stack[j].0 <= p <= st.stack[j].1;
                if j < m - 1 {
                    assert(next.stack[j] == st.stack[j]);
                } else if p == st.stack[m - 1].0 {
                    assert(next.kept[st.kept.len() as int] == p);
                } else if m > 1 {
                    assert(st.stack[m - 1].1 == st.stack[m - 2].0);
                    assert(next.stack[m - 2] == st.stack[m - 2]);
                    assert(next.stack[m - 2].0 <= p <= next.stack[m - 2].1);
                } else {
                    assert(st.stack[0].1 == st.n - 1);
                }
            }
        }
    }
}

proof fn lemma_reachable(n: usize, before: Seq<Option<usize>>)
    requires
        !simplify_finished(resolve_all(simplify_start(n), before)),
    ensures
        chained(resolve_all(simplify_start(n), before)),
        runs_ordered(resolve_all(simplify_start(n), before)),
        !is_short(resolve_all(simplify_start(n), before).stack.last()),
        resolve_all(simplify_start(n), before).n == n,
{
    lemma_simplify_start(n);
    lemma_resolve_all(simplify_start(n), before);
    if n == 0 {
        assert(simplify_start(n).stack.len() == 0);
        assert(resolve_all(simplify_start(n), before) == simplify_start(n));
    }
}

/// Splitting the pending run at an interior point leaves every point of the
/// run to be judged further, loses nothing that could still be kept, and
/// judges the left half next.
pub proof fn lemma_split_keeps_both_halves(n: usize, before: Seq<Option<usize>>, k: usize)
    requires
        !simplify_finished(resolve_all(simplify_start(n), before)),
        splits(resolve_all(simplify_start(n), before).stack.last(), k),
    ensures
        ({
            let st = resolve_all(simplify_start(n), before);
            let r = st.stack.last();
            let t = resolve(st, Some(k));
            &&& forall|p: usize| r.0 <= p <= r.1 ==> #[trigger] may_be_kept(t, p)
            &&& forall|p: usize| may_be_kept(st, p) ==> #[trigger] may_be_kept(t, p)
            &&& k - r.0 >= 2 ==> t.stack.last() == (r.0, k) && t.kept == st.kept
            &&& t.kept.len() >= st.kept.len()
            &&& forall|i: int| 0 <= i < st.kept.len() ==> #[trigger] t.kept[i] == st.kept[i]
        }),
{
    lemma_reachable(n, before);
    let st = resolve_all(simplify_start(n), before);
    let m = st.stack.len();
    let r = st.stack.last();
    let rest = st.stack.drop_last();
    assert(r == st.stack[m - 1]);
    assert(forall|j: int| 0 <= j < rest.len() ==> rest[j] == st.stack[j]);
    let mid = SimplifyState { n: st.n, stack: rest.push((k, r.1)).push((r.0, k)), kept: st.kept };
    assert(mid.stack.drop_last().drop_last() =~= rest);
    assert(mid.stack.drop_last() =~= rest.push((k, r.1)));
    assert(mid.stack[m - 1] == (k, r.1));
    assert(mid.stack[m as int] == (r.0, k));
    assert(forall|j: int| 0 <= j < rest.len() ==> mid.stack[j] == st.stack[j]);
    assert(frontier(mid) == frontier(st));
    assert(chained(mid));
    assert forall|p: usize| may_be_kept(st, p) || r.0 <= p <= r.1 implies #[trigger] may_be_kept(mid, p) by {
        if r.0 <= p <= r.1 {
            if p <= k {
                assert(mid.stack[m as int].0 <= p <= mid.stack[m as int].1);
            } else {
                assert(mid.stack[m - 1].0 <= p <= mid.stack[m - 1].1);
            }
        } else if in_open_run(st, p) {
            let j = choose|j: int| 0 <= j < st.stack.len() && #[trigger] st.stack[j].0 <= p <= st.stack[j].1;
            assert(j != m - 1);
            assert(mid.stack[j].0 <= p <= mid.stack[j].1);
        }
    }
    lemma_drop_short_runs_grows(mid);
    lemma_drop_short_runs_shrinks(mid);
}

/// Keeping only the ends of the pending run drops exactly its interior: no
/// interior point is kept, whatever the later verdicts, the run's first point
/// is kept next, and nothing else that could still be kept is lost.
pub proof fn lemma_no_split_drops_interior(
    n: usize,
    before: Seq<Option<usize>>,
    after: Seq<Option<usize>>,
)
    requires
        !simplify_finished(resolve_all(simplify_start(n), before)),
    ensures
        ({
            let st = resolve_all(simplify_start(n), before);
            let r = st.stack.last();
            let t = resolve(st, None);
            &&& forall|p: usize|
                r.0 < p < r.1 ==> !#[trigger] kept_points(resolve_all(t, after)).contains(p)
            &&& forall|p: usize| may_be_kept(st, p) && !(r.0 < p < r.1) ==> #[trigger] may_be_kept(t, p)
            &&& t.kept.len() > st.kept.len()
            &&& t.kept[st.kept.len() as int] == r.0
            &&& forall|i: int| 0 <= i < st.kept.len() ==> #[trigger] t.kept[i] == st.kept[i]
        }),
{
    lemma_reachable(n, before);
    let st = resolve_all(simplify_start(n), before);
    let m = st.stack.len();
    let r = st.stack.last();
    assert(r == st.stack[m - 1]);
    let mid = SimplifyState { n: st.n, stack: st.stack.drop_last(), kept: st.kept.push(st.stack.last().0) };
    assert(resolve(st, None) == drop_short_runs(mid));
    lemma_keep_top(st);
    assert forall|p: usize| may_be_kept(st, p) && !(r.0 < p < r.1) implies #[trigger] may_be_kept(mid, p) by {
        if st.kept.contains(p) {
            let i = choose|i: int| 0 <= i < st.kept.len() && st.kept[i] == p;
            assert(mid.kept[i] == p);
        } else if in_open_run(st, p) {
            let j = choose|j: int| 0 <= j < st.stack.len() && #[trigger] st.stack[j].0 <= p <= st.stack[j].1;
            if j < m - 1 {
                assert(mid.stack[j] == st.stack[j]);
            } else if p == r.0 {
                assert(mid.kept[st.kept.len() as int] == p);
            } else if m > 1 {
                assert(st.stack[m - 1].1 == st.stack[m - 2].0);
                assert(mid.stack[m - 2] == st.stack[m - 2]);
                assert(mid.stack[m - 2].0 <= p <= mid.stack[m - 2].1);
            } else {
                assert(st.stack[0].1 == st.n - 1);
            }
        }
    }
    assert forall|p: usize| r.0 < p < r.1 implies !#[trigger] may_be_kept(mid, p) by {
        if mid.kept.contains(p) {
            let i = choose|i: int| 0 <= i < mid.kept.len() && mid.kept[i] == p;
            if i < st.kept.len() {
                assert(mid.kept[i] == st.kept[i]);
                assert(st.kept[i] < frontier(st));
            }
        }
        if in_open_run(mid, p) {
            let j = choose|j: int| 0 <= j < mid.stack.len() && #[trigger] mid.stack[j].0 <= p <= mid.stack[j].1;
            assert(mid.stack[j] == st.stack[j]);
            lemma_runs_to_the_right(st, j, m - 1);
        }
        assert(st.stack[m - 1].1 < st.n);
    }
    lemma_drop_short_runs_grows(mid);
    lemma_drop_short_runs_shrinks(mid);
    lemma_drop_short_runs(mid);
    let t = resolve(st, None);
    lemma_resolve_all_shrinks(t, after);
    lemma_resolve_all(t, after);
    let fin = resolve_all(t, after);
    assert forall|p: usize| r.0 < p < r.1 implies !#[trigger] kept_points(fin).contains(p) by {
        assert(!may_be_kept(mid, p));
        assert(!may_be_kept(t, p));
        assert(!may_be_kept(fin, p));
        if kept_points(fin).contains(p) {
            let i = choose|i: int| 0 <= i < kept_points(fin).len() && kept_points(fin)[i] == p;
            if i < fin.kept.len() {
                assert(fin.kept[i] == p);
            }
        }
    }
    assert(mid.kept[st.kept.len() as int] == r.0);
}

/// One verdict per interior point is enough to judge every run.
pub proof fn lemma_simplify_finishes(n: usize, vs: Seq<Option<usize>>)
    requires
        vs.len() + 2 >= n,
    ensures
        simplify_finished(resolve_all(simplify_start(n), vs)),
{
    lemma_simplify_start(n);
    lemma_resolve_all(simplify_start(n), vs);
}

/// Whatever the verdicts, the kept indices are strictly increasing, start at
/// the first point and end at the last: a simplified stroke keeps its ends
/// and the order of its points.
pub proof fn lemma_simplify_shape(n: usize, vs: Seq<Option<usize>>)
    requires
        n >= 1,
        simplify_finished(resolve_all(simplify_start(n), vs)),
    ensures
        ({
            let out = kept_points(resolve_all(simplify_start(n), vs));
            &&& out.len() >= 1
            &&& out[0] == 0
            &&& out.last() == n - 1
            &&& forall|i: int, j: int| 0 <= i < j < out.len() ==> out[i] < out[j]
            &&& n >= 2 ==> out.len() >= 2
        }),
{
    lemma_simplify_start(n);
    lemma_resolve_all(simplify_start(n), vs);
    let st = resolve_all(simplify_start(n), vs);
    let out = kept_points(st);
    assert(out == st.kept.push((n - 1) as usize));
    assert forall|i: int, j: int| 0 <= i < j < out.len() implies out[i] < out[j] by {
        if j == out.len() - 1 {
            if i < st.kept.len() {
                assert(st.kept[i] < frontier(st));
            }
        } else {
            assert(out[i] == st.kept[i] && out[j] == st.kept[j]);
        }
    }
}

/// A point at which a run is split is kept, whatever the later verdicts.
pub proof fn lemma_simplify_keeps_split_points(
    n: usize,
    before: Seq<Option<usize>>,
    k: usize,
    after: Seq<Option<usize>>,
)
    requires
        !simplify_finished(resolve_all(simplify_start(n), before)),
        splits(resolve_all(simplify_start(n), before).stack.last(), k),
        simplify_finished(resolve_all(resolve(resolve_all(simplify_start(n), before), Some(k)), after)),
    ensures
        kept_points(resolve_all(resolve(resolve_all(simplify_start(n), before), Some(k)), after)).contains(k),
{
    lemma_simplify_start(n);
    lemma_resolve_all(simplify_start(n), before);
    let st = resolve_all(simplify_start(n), before);
    lemma_resolve(st, Some(k));
    let mid = resolve(st, Some(k));
    lemma_resolve_all(mid, after);
    let fin = resolve_all(mid, after);
    assert(committed(fin, k));
    let i = choose|i: int| 0 <= i < fin.kept.len() && fin.kept[i] == k;
    assert(kept_points(fin)[i] == k);
}

/// When no run is split, only the two ends of the stroke are kept.
pub proof fn lemma_simplify_without_splits(n: usize, vs: Seq<Option<usize>>)
    requires
        n >= 2,
        forall|i: int| 0 <= i < vs.len() ==> #[trigger] vs[i] is None,
        simplify_finished(resolve_all(simplify_start(n), vs)),
    ensures
        kept_points(resolve_all(simplify_start(n), vs)) == seq![0usize, (n - 1) as usize],
{
    let first = SimplifyState { n, stack: seq![(0usize, (n - 1) as usize)], kept: Seq::<usize>::empty() };
    assert(first.stack.drop_last() =~= Seq::<(usize, usize)>::empty());
    let st = simplify_start(n);
    let second = SimplifyState { n, stack: first.stack.drop_last(), kept: seq![0usize] };
    assert(first.stack.last() == (0usize, (n - 1) as usize));
    assert(Seq::<usize>::empty().push(0usize) =~= seq![0usize]);
    if n == 2 {
        assert(drop_short_runs(first) == drop_short_runs(second));
        assert(drop_short_runs(second) == second);
        assert(st == second);
        assert(resolve_all(st, vs) == st);
    } else {
        assert(st == first);
        assert(vs.len() > 0);
        let next = resolve(st, vs[0]);
        assert(next == drop_short_runs(second));
        assert(drop_short_runs(second) == second);
        assert(resolve_all(st, vs) == resolve_all(next, vs.drop_first()));
        assert(resolve_all(next, vs.drop_first()) == next);
    }
}

/// Every run holds at least two points, all of them among the `n`.
pub open spec fn runs_ordered(st: SimplifyState) -> bool {
    forall|j: int| 0 <= j < st.stack.len() ==> #[trigger] st.stack[j].0 < st.stack[j].1 < st.n
}

/// Simplifies the indices `0..n` of a stroke's points, asking its caller
/// where to split each run.
pub struct Simplifier {
    n: usize,
    stack: Vec<(usize, usize)>,
    kept: Vec<usize>,
}

impl View for Simplifier {
    type V = SimplifyState;

    closed spec fn view(&self) -> SimplifyState {
        SimplifyState { n: self.n, stack: self.stack@, kept: self.kept@ }
    }
}

impl Simplifier {
    /// The runs are well formed and the top run, if any, needs judging.
    pub closed spec fn wf(&self) -> bool {
        &&& runs_ordered(self@)
        &&& self@.stack.len() > 0 ==> !is_short(self@.stack.last())
    }

    fn drop_short_runs(&mut self)
        requires
            runs_ordered(old(self)@),
        ensures
            final(self).wf(),
            final(self)@ == drop_short_runs(old(self)@),
    {
        let ghost first = self@;
        loop
            invariant
                runs_ordered(self@),
                drop_short_runs(self@) == drop_short_runs(first),
            ensures
                self.wf(),
                drop_short_runs(self@) == drop_short_runs(first),
            decreases self.stack@.len(),
        {
            if self.stack.len() == 0 {
                break;
            }
            let top = self.stack[self.stack.len() - 1];
            if top.1 - top.0 >= 2 {
                break;
            }
            self.stack.pop();
            self.kept.push(top.0);
        }
    }

    /// A simplifier for the indices of `n` points.
    pub fn new(n: usize) -> (s: Simplifier)
        ensures
            s.wf(),
            s@ == simplify_start(n),
    {
        let mut stack: Vec<(usize, usize)> = Vec::new();
        if n >= 2 {
            stack.push((0, n - 1));
        }
        let mut s = Simplifier { n, stack, kept: Vec::new() };
        proof {
            if n >= 2 {
                assert(s@.stack =~= seq![(0usize, (n - 1) as usize)]);
            } else {
                assert(s@.stack =~= Seq::<(usize, usize)>::empty());
            }
        }
        s.drop_short_runs();
        s
    }

    /// The run `(lo, hi)` to judge next: is an interior point farther than the
    /// tolerance from the chord, and which is farthest? `None` once every run
    /// is judged.
    pub fn pending(&self) -> (r: Option<(usize, usize)>)
        requires
            self.wf(),
        ensures
            r is None <==> simplify_finished(self@),
            r matches Some(run) ==> run == self@.stack.last() && !is_short(run),
    {
        if self.stack.len() == 0 {
            None
        } else {
            Some(self.stack[self.stack.len() - 1])
        }
    }

    /// Applies the verdict on the pending run: `Some(k)` splits it at the
    /// interior point `k`, `None` keeps only its ends.
    pub fn resolve(&mut self, split: Option<usize>)
        requires
            old(self).wf(),
            !simplify_finished(old(self)@),
        ensures
            final(self).wf(),
            final(self)@ == resolve(old(self)@, split),
    {
        let top = self.stack.pop().unwrap();
        proof {
            assert(self@.stack =~= old(self)@.stack.drop_last());
        }
        match split {
            Some(k) if top.0 < k && k < top.1 => {
                self.stack.push((k, top.1));
                self.stack.push((top.0, k));
            },
            _ => {
                self.kept.push(top.0);
            },
        }
        self.drop_short_runs();
    }

    /// The indices of the kept points, in increasing order, once `pending` is `None`.
    pub fn into_kept(self) -> (kept: Vec<usize>)
        ensures
            kept@ == kept_points(self@),
    {
        let mut kept = self.kept;
        if self.n == 0 {
            Vec::new()
        } else {
            kept.push(self.n - 1);
            kept
        }
    }
}

/// The points that shape the curve segment from point `i` to point `i + 1`
/// of a stroke of `n` points: its neighbours before and after, clamped to the
/// ends of the stroke, as Catmull-Rom interpolation uses them.
pub open spec fn segment_points(n: usize, i: usize) -> (usize, usize, usize, usize) {
    (
        if i == 0 {
            0usize
        } else {
            (i - 1) as usize
        },
        i,
        (i + 1) as usize,
        if i + 2 < n {
            (i + 2) as usize
        } else {
            (n - 1) as usize
        },
    )
}

/// How a stroke is drawn: not at all (fewer than two points), as one straight
/// line between two points, or as a chain of curve segments, each given by the
/// indices of the four points that shape it.
pub enum SmoothPath {
    Nothing,
    Line(usize, usize),
    Curves(Vec<(usize, usize, usize, usize)>),
}

/// Plans the drawing of a stroke of `n` points.
pub fn smooth_path(n: usize) -> (p: SmoothPath)
    ensures
        n <= 1 ==> p is Nothing,
        n == 2 ==> p == SmoothPath::Line(0, 1),
        n >= 3 ==> (p matches SmoothPath::Curves(segs) && segs@.len() == n - 1 && forall|i: int|
            0 <= i < n - 1 ==> #[trigger] segs@[i] == segment_points(n, i as usize)),
{
    if n <= 1 {
        SmoothPath::Nothing
    } else if n == 2 {
        SmoothPath::Line(0, 1)
    } else {
        let mut segs: Vec<(usize, usize, usize, usize)> = Vec::new();
        let mut i: usize = 0;
        while i < n - 1
            invariant
                n >= 3,
                i <= n - 1,
                segs@.len() == i,
                forall|j: int| 0 <= j < i ==> #[trigger] segs@[j] == segment_points(n, j as usize),
            decreases n - 1 - i,
        {
            let p0 = if i == 0 {
                0
            } else {
                i - 1
            };
            let p3 = if i + 2 < n {
                i + 2
            } else {
                n - 1
            };
            segs.push((p0, i, i + 1, p3));
            i = i + 1;
        }
        SmoothPath::Curves(segs)
    }
}

/// The curve segments pass through the points of the stroke in order, each
/// from one point to the next, and are shaped only by points of the stroke
/// taken in order.
pub proof fn lemma_segments_follow_stroke(n: usize, i: usize)
    requires
        n >= 3,
        i < n - 1,
    ensures
        segment_points(n, i).1 == i,
        segment_points(n, i).2 == i + 1,
        segment_points(n, i).0 <= segment_points(n, i).1,
        segment_points(n, i).2 <= segment_points(n, i).3 < n,
        i + 1 < n - 1 ==> segment_points(n, i).2 == segment_points(n, (i + 1) as usize).1,
{
}

/// Each segment is shaped by the stroke's points adjacent to its ends: the
/// point just before its start and the point just after its end, or the end
/// point itself at the two ends of the stroke. So the outer neighbours of a
/// segment are the inner points of the segments next to it.
pub proof fn lemma_segments_use_adjacent_points(n: usize, i: usize)
    requires
        n >= 3,
        i < n - 1,
    ensures
        i > 0 ==> segment_points(n, i).0 + 1 == segment_points(n, i).1,
        i == 0 ==> segment_points(n, i).0 == 0,
        i + 2 < n ==> segment_points(n, i).3 == segment_points(n, i).2 + 1,
        i + 2 == n ==> segment_points(n, i).3 == n - 1,
        i > 0 ==> segment_points(n, i).0 == segment_points(n, (i - 1) as usize).1,
        i + 2 < n ==> segment_points(n, i).3 == segment_points(n, (i + 1) as usize).2,
{
}

} // verus!
