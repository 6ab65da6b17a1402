//! What refining a colouring means.
//!
//! Refinement works off a set of pending colours, smallest first. For the
//! cell of the colour taken, every node is given the number of edges that
//! join it to that cell; then every cell, in ascending order of colour, is
//! split by that number: as long as its members differ in it, those with the
//! least number leave for a new cell. Each such split makes the colour that
//! cell `k` moves up to pending and appends it to the trace.
//!
//! A cell none of whose members has an edge to the cell taken has the number
//! zero throughout and is never split, so only the cells next to the cell
//! taken ever change.

use vstd::prelude::*;
use crate::graph::{joins, links};
use crate::partition::{
    ascending, lemma_retain_contains, lemma_retain_lengths, lemma_split_wf, retain,
    ColouringView,
};

verus! {

/// The number of edges that join `v` to a node of `src`, an edge counted once
/// for each such node.
pub open spec fn degree(edges: Seq<(usize, usize)>, src: Seq<usize>, v: usize) -> nat
    decreases src.len(),
{
    if src.len() == 0 {
        0
    } else {
        degree(edges, src.drop_last(), v) + links(edges, src.last(), v)
    }
}

/// The least degree towards `src` among the nodes `ms`.
pub open spec fn least_degree(edges: Seq<(usize, usize)>, src: Seq<usize>, ms: Seq<usize>) -> nat
    decreases ms.len(),
{
    if ms.len() == 0 {
        0
    } else if ms.len() == 1 {
        degree(edges, src, ms[0])
    } else {
        let rest = least_degree(edges, src, ms.drop_last());
        let d = degree(edges, src, ms.last());
        if d < rest {
            d
        } else {
            rest
        }
    }
}

/// Whether all of `ms` have the same degree towards `src`.
pub open spec fn same_degree(edges: Seq<(usize, usize)>, src: Seq<usize>, ms: Seq<usize>) -> bool {
    forall|i: int, j: int|
        0 <= i < ms.len() && 0 <= j < ms.len() ==> degree(edges, src, #[trigger] ms[i]) == degree(
            edges,
            src,
            #[trigger] ms[j],
        )
}

/// The nodes of `ms` that have degree `d` towards `src`, in their order.
pub open spec fn with_degree(
    edges: Seq<(usize, usize)>,
    src: Seq<usize>,
    ms: Seq<usize>,
    d: nat,
) -> Seq<usize>
    decreases ms.len(),
{
    if ms.len() == 0 {
        Seq::empty()
    } else if degree(edges, src, ms.last()) == d {
        with_degree(edges, src, ms.drop_last(), d).push(ms.last())
    } else {
        with_degree(edges, src, ms.drop_last(), d)
    }
}

/// A refinement under way: the colouring, the pending colours as one flag
/// per colour, and the trace so far.
pub struct RefineState {
    pub coloring: ColouringView,
    pub pending: Seq<bool>,
    pub trace: Seq<usize>,
}

/// The first position from `i` on at which `w` is set, or the length of `w`.
pub open spec fn first_pending(w: Seq<bool>, i: int) -> int
    decreases w.len() - i,
{
    if i >= w.len() {
        w.len() as int
    } else if w[i] {
        i
    } else {
        first_pending(w, i + 1)
    }
}

/// The number of positions at which `w` is set.
pub open spec fn count_pending(w: Seq<bool>) -> nat
    decreases w.len(),
{
    if w.len() == 0 {
        0
    } else {
        count_pending(w.drop_last()) + if w.last() {
            1nat
        } else {
            0nat
        }
    }
}

/// What holds of a refinement under way: the colouring is valid, there is a
/// flag for every colour below `size`, and only colours in use are pending.
pub open spec fn state_ok(st: RefineState) -> bool {
    &&& st.coloring.wf()
    &&& st.coloring.size <= usize::MAX
    &&& st.pending.len() == st.coloring.size
    &&& forall|c: int|
        0 <= c < st.pending.len() && #[trigger] st.pending[c]
            ==> st.coloring.color_of_cell.dom().contains(c as usize)
}

/// Cell `k` split by degree towards `src`: while its members differ in
/// degree, those of least degree leave.
pub open spec fn split_by_degree(
    st: RefineState,
    edges: Seq<(usize, usize)>,
    src: Seq<usize>,
    k: int,
) -> RefineState
    decreases st.coloring.cells[k].members.len(),
{
    let ms = st.coloring.cells[k].members;
    if !(0 <= k < st.coloring.cells.len()) || same_degree(edges, src, ms) {
        st
    } else {
        let sub = with_degree(edges, src, ms, least_degree(edges, src, ms));
        let q = st.coloring.split(k, sub);
        let c = q.cells[k].color;
        proof {
            lemma_least_leaves(edges, src, ms);
        }
        split_by_degree(
            RefineState {
                coloring: q,
                pending: st.pending.update(c as int, true),
                trace: st.trace.push(c),
            },
            edges,
            src,
            k,
        )
    }
}

/// Every cell with a colour from `c` up to `n` split by degree towards
/// `src`, in ascending order of colour.
pub open spec fn sweep(
    st: RefineState,
    edges: Seq<(usize, usize)>,
    src: Seq<usize>,
    c: nat,
    n: nat,
) -> RefineState
    decreases n - c,
{
    if c >= n {
        st
    } else if st.coloring.color_of_cell.dom().contains(c as usize) {
        sweep(
            split_by_degree(st, edges, src, st.coloring.color_of_cell[c as usize] as int),
            edges,
            src,
            c + 1,
            n,
        )
    } else {
        sweep(st, edges, src, c + 1, n)
    }
}

/// The state with the first pending colour taken off.
pub open spec fn popped(st: RefineState) -> RefineState {
    RefineState {
        coloring: st.coloring,
        pending: st.pending.update(first_pending(st.pending, 0), false),
        trace: st.trace,
    }
}

/// The members of the cell that has the first pending colour.
pub open spec fn source(st: RefineState) -> Seq<usize> {
    st.coloring.cells[st.coloring.color_of_cell[first_pending(st.pending, 0) as usize] as int].members
}

/// Refinement from `st` on, until no colour is pending.
pub open spec fn refine_from(st: RefineState, edges: Seq<(usize, usize)>) -> RefineState
    decreases st.coloring.size - st.coloring.cells.len(), count_pending(st.pending),
    when state_ok(st)
{
    if first_pending(st.pending, 0) >= st.pending.len() {
        st
    } else {
        let next = sweep(popped(st), edges, source(st), 0, st.coloring.size);
        proof {
            lemma_first_pending(st.pending, 0);
            lemma_count_pending_clear(st.pending, first_pending(st.pending, 0));
            lemma_popped_ok(st);
            lemma_sweep(popped(st), edges, source(st), 0, st.coloring.size);
        }
        refine_from(next, edges)
    }
}

/// The state in which refinement starts: every colour in use is pending.
pub open spec fn start(p: ColouringView) -> RefineState {
    RefineState {
        coloring: p,
        pending: Seq::new(p.size, |c: int| p.color_of_cell.dom().contains(c as usize)),
        trace: Seq::empty(),
    }
}

/// The refinement of `p` along `edges`: the refined colouring and the
/// trace. A discrete colouring is left as it is.
pub open spec fn refine(p: ColouringView, edges: Seq<(usize, usize)>) -> (ColouringView, Seq<usize>) {
    if p.is_discrete() {
        (p, Seq::empty())
    } else {
        let st = refine_from(start(p), edges);
        (st.coloring, st.trace)
    }
}

/// The least degree is the degree of some node and at most that of any.
pub proof fn lemma_least_degree(edges: Seq<(usize, usize)>, src: Seq<usize>, ms: Seq<usize>)
    requires
        ms.len() > 0,
    ensures
        exists|i: int|
            0 <= i < ms.len() && degree(edges, src, #[trigger] ms[i]) == least_degree(
                edges,
                src,
                ms,
            ),
        forall|i: int|
            0 <= i < ms.len() ==> least_degree(edges, src, ms) <= degree(
                edges,
                src,
                #[trigger] ms[i],
            ),
    decreases ms.len(),
{
    if ms.len() == 1 {
        assert(degree(edges, src, ms[0]) == least_degree(edges, src, ms));
    } else {
        let front = ms.drop_last();
        lemma_least_degree(edges, src, front);
        let w = choose|i: int|
            0 <= i < front.len() && degree(edges, src, #[trigger] front[i]) == least_degree(
                edges,
                src,
                front,
            );
        assert(front[w] == ms[w]);
        if degree(edges, src, ms.last()) < least_degree(edges, src, front) {
            assert(degree(edges, src, ms[ms.len() - 1]) == least_degree(edges, src, ms));
        } else {
            assert(degree(edges, src, ms[w]) == least_degree(edges, src, ms));
        }
        assert forall|i: int| 0 <= i < ms.len() implies least_degree(edges, src, ms) <= degree(
            edges,
            src,
            #[trigger] ms[i],
        ) by {
            if i < front.len() {
                assert(front[i] == ms[i]);
            }
        }
    }
}

/// What `with_degree` holds.
pub proof fn lemma_with_degree(
    edges: Seq<(usize, usize)>,
    src: Seq<usize>,
    ms: Seq<usize>,
    d: nat,
)
    ensures
        forall|v: usize| #[trigger]
            with_degree(edges, src, ms, d).contains(v) <==> ms.contains(v) && degree(edges, src, v)
                == d,
    decreases ms.len(),
{
    let r = with_degree(edges, src, ms, d);
    if ms.len() > 0 {
        let front = ms.drop_last();
        let rf = with_degree(edges, src, front, d);
        lemma_with_degree(edges, src, front, d);
        assert forall|v: usize| #[trigger]
            r.contains(v) <==> ms.contains(v) && degree(edges, src, v) == d by {
            if r.contains(v) {
                let i = choose|i: int| 0 <= i < r.len() && r[i] == v;
                if degree(edges, src, ms.last()) == d && i == r.len() - 1 {
                    assert(ms[ms.len() - 1] == v);
                } else {
                    assert(rf[i] == v);
                    assert(rf.contains(v));
                    let j = choose|j: int| 0 <= j < front.len() && front[j] == v;
                    assert(ms[j] == v);
                }
            }
            if ms.contains(v) && degree(edges, src, v) == d {
                let j = choose|j: int| 0 <= j < ms.len() && ms[j] == v;
                if j == ms.len() - 1 {
                    assert(r[r.len() - 1] == v);
                } else {
                    assert(front[j] == v);
                    assert(front.contains(v));
                    assert(rf.contains(v));
                    let i = choose|i: int| 0 <= i < rf.len() && rf[i] == v;
                    assert(r[i] == v);
                }
            }
        }
    }
}

/// Taking the nodes of least degree out of a list makes it shorter; it
/// leaves some behind unless all have the same degree.
pub proof fn lemma_least_leaves(edges: Seq<(usize, usize)>, src: Seq<usize>, ms: Seq<usize>)
    requires
        ms.len() > 0,
    ensures
        retain(ms, with_degree(edges, src, ms, least_degree(edges, src, ms)), false).len()
            < ms.len(),
        retain(ms, with_degree(edges, src, ms, least_degree(edges, src, ms)), true).len() > 0,
{
    let d = least_degree(edges, src, ms);
    let sub = with_degree(edges, src, ms, d);
    lemma_least_degree(edges, src, ms);
    lemma_with_degree(edges, src, ms, d);
    lemma_retain_contains(ms, sub, true);
    lemma_retain_lengths(ms, sub);
    let w = choose|i: int| 0 <= i < ms.len() && degree(edges, src, #[trigger] ms[i]) == d;
    assert(ms.contains(ms[w]));
    assert(sub.contains(ms[w]));
    assert(retain(ms, sub, true).contains(ms[w]));
}

/// The nodes of least degree can be split off a cell whose members differ
/// in degree.
pub proof fn lemma_can_split_least(
    p: ColouringView,
    edges: Seq<(usize, usize)>,
    src: Seq<usize>,
    k: int,
)
    requires
        p.wf(),
        0 <= k < p.cells.len(),
        !same_degree(edges, src, p.cells[k].members),
    ensures
        p.can_split(
            k,
            with_degree(
                edges,
                src,
                p.cells[k].members,
                least_degree(edges, src, p.cells[k].members),
            ),
        ),
{
    let ms = p.cells[k].members;
    let d = least_degree(edges, src, ms);
    let sub = with_degree(edges, src, ms, d);
    assert(ms.len() > 0);
    lemma_least_degree(edges, src, ms);
    lemma_with_degree(edges, src, ms, d);
    let w = choose|i: int| 0 <= i < ms.len() && degree(edges, src, #[trigger] ms[i]) == d;
    assert(ms.contains(ms[w]));
    assert(sub.contains(ms[w]));
    assert(sub.len() > 0);
    assert forall|i: int| 0 <= i < sub.len() implies ms.contains(#[trigger] sub[i]) by {
        assert(sub.contains(sub[i]));
    }
    let (a, b) = choose|a: int, b: int|
        0 <= a < ms.len() && 0 <= b < ms.len() && degree(edges, src, #[trigger] ms[a]) != degree(
            edges,
            src,
            #[trigger] ms[b],
        );
    if degree(edges, src, ms[a]) != d {
        assert(!sub.contains(ms[a]));
    } else {
        assert(!sub.contains(ms[b]));
    }
}

/// What `first_pending` finds.
pub proof fn lemma_first_pending(w: Seq<bool>, i: int)
    requires
        0 <= i <= w.len(),
    ensures
        i <= first_pending(w, i) <= w.len(),
        first_pending(w, i) < w.len() ==> w[first_pending(w, i)],
        forall|j: int| i <= j < first_pending(w, i) ==> !#[trigger] w[j],
    decreases w.len() - i,
{
    if i < w.len() && !w[i] {
        lemma_first_pending(w, i + 1);
    }
}

/// Clearing a set flag lowers the count by one.
pub proof fn lemma_count_pending_clear(w: Seq<bool>, i: int)
    requires
        0 <= i < w.len(),
        w[i],
    ensures
        count_pending(w.update(i, false)) + 1 == count_pending(w),
    decreases w.len(),
{
    let u = w.update(i, false);
    if i == w.len() - 1 {
        assert(u.drop_last() =~= w.drop_last());
    } else {
        lemma_count_pending_clear(w.drop_last(), i);
        assert(u.drop_last() =~= w.drop_last().update(i, false));
    }
}

/// Taking the first pending colour off keeps the state in order, and that
/// colour has a cell.
pub proof fn lemma_popped_ok(st: RefineState)
    requires
        state_ok(st),
        first_pending(st.pending, 0) < st.pending.len(),
    ensures
        state_ok(popped(st)),
        st.coloring.color_of_cell.dom().contains(first_pending(st.pending, 0) as usize),
        st.coloring.color_of_cell[first_pending(st.pending, 0) as usize] < st.coloring.cells.len(),
{
    lemma_first_pending(st.pending, 0);
    let s = first_pending(st.pending, 0);
    assert(st.pending[s]);
    let q = popped(st);
    assert forall|c: int| 0 <= c < q.pending.len() && #[trigger] q.pending[c] implies
        q.coloring.color_of_cell.dom().contains(c as usize) by {
        assert(st.pending[c]);
    }
}

/// One split by degree keeps the state in order, adds a cell and keeps the
/// colours that were in use.
pub proof fn lemma_split_step(
    st: RefineState,
    edges: Seq<(usize, usize)>,
    src: Seq<usize>,
    k: int,
)
    requires
        state_ok(st),
        0 <= k < st.coloring.cells.len(),
        !same_degree(edges, src, st.coloring.cells[k].members),
    ensures
        ({
            let ms = st.coloring.cells[k].members;
            let sub = with_degree(edges, src, ms, least_degree(edges, src, ms));
            let q = st.coloring.split(k, sub);
            let next = RefineState {
                coloring: q,
                pending: st.pending.update(q.cells[k].color as int, true),
                trace: st.trace.push(q.cells[k].color),
            };
            &&& state_ok(next)
            &&& st.coloring.can_split(k, sub)
            &&& q.cells.len() == st.coloring.cells.len() + 1
            &&& q.cells[k].members.len() < ms.len()
            &&& q.cells[k].color < st.coloring.size
            &&& forall|c: usize| #[trigger]
                st.coloring.color_of_cell.dom().contains(c) ==> q.color_of_cell.dom().contains(c)
        }),
{
    let p = st.coloring;
    let ms = p.cells[k].members;
    let sub = with_degree(edges, src, ms, least_degree(edges, src, ms));
    let q = p.split(k, sub);
    lemma_can_split_least(p, edges, src, k);
    lemma_split_wf(p, k, sub);
    lemma_least_leaves(edges, src, ms);
    let c = q.cells[k].color;
    let next = RefineState {
        coloring: q,
        pending: st.pending.update(c as int, true),
        trace: st.trace.push(c),
    };
    assert(q.color_of_cell.dom().contains(q.cells[k].color));
    assert forall|x: int| 0 <= x < next.pending.len() && #[trigger] next.pending[x] implies
        q.color_of_cell.dom().contains(x as usize) by {
        if x != c {
            assert(st.pending[x]);
        }
    }
}

/// Splitting a cell by degree keeps the state in order. It never removes a
/// cell or a colour, it changes nothing unless it adds a cell, and it
/// leaves the members of cell `k` with one degree.
pub proof fn lemma_split_by_degree(
    st: RefineState,
    edges: Seq<(usize, usize)>,
    src: Seq<usize>,
    k: int,
)
    requires
        state_ok(st),
        0 <= k < st.coloring.cells.len(),
    ensures
        state_ok(split_by_degree(st, edges, src, k)),
        split_by_degree(st, edges, src, k).coloring.size == st.coloring.size,
        split_by_degree(st, edges, src, k).coloring.cells.len() >= st.coloring.cells.len(),
        split_by_degree(st, edges, src, k).coloring.cells.len() == st.coloring.cells.len()
            ==> split_by_degree(st, edges, src, k) == st,
        forall|c: usize| #[trigger]
            st.coloring.color_of_cell.dom().contains(c) ==> split_by_degree(
                st,
                edges,
                src,
                k,
            ).coloring.color_of_cell.dom().contains(c),
        same_degree(edges, src, split_by_degree(st, edges, src, k).coloring.cells[k].members),
    decreases st.coloring.cells[k].members.len(),
{
    let ms = st.coloring.cells[k].members;
    if !same_degree(edges, src, ms) {
        let sub = with_degree(edges, src, ms, least_degree(edges, src, ms));
        let q = st.coloring.split(k, sub);
        let c = q.cells[k].color;
        let next = RefineState {
            coloring: q,
            pending: st.pending.update(c as int, true),
            trace: st.trace.push(c),
        };
        lemma_split_step(st, edges, src, k);
        lemma_split_by_degree(next, edges, src, k);
    }
}

/// A sweep keeps the state in order. It never removes a cell or a colour,
/// and it changes nothing unless it adds a cell.
pub proof fn lemma_sweep(
    st: RefineState,
    edges: Seq<(usize, usize)>,
    src: Seq<usize>,
    c: nat,
    n: nat,
)
    requires
        state_ok(st),
    ensures
        state_ok(sweep(st, edges, src, c, n)),
        sweep(st, edges, src, c, n).coloring.size == st.coloring.size,
        sweep(st, edges, src, c, n).coloring.cells.len() >= st.coloring.cells.len(),
        sweep(st, edges, src, c, n).coloring.cells.len() == st.coloring.cells.len() ==> sweep(
            st,
            edges,
            src,
            c,
            n,
        ) == st,
        forall|x: usize| #[trigger]
            st.coloring.color_of_cell.dom().contains(x) ==> sweep(
                st,
                edges,
                src,
                c,
                n,
            ).coloring.color_of_cell.dom().contains(x),
    decreases n - c,
{
    if c < n {
        if st.coloring.color_of_cell.dom().contains(c as usize) {
            let k = st.coloring.color_of_cell[c as usize] as int;
            lemma_split_by_degree(st, edges, src, k);
            lemma_sweep(split_by_degree(st, edges, src, k), edges, src, c + 1, n);
        } else {
            lemma_sweep(st, edges, src, c + 1, n);
        }
    }
}

/// Whether the edge `e` joins `v` to a node of `src`, counted once for each
/// such node.
pub open spec fn hits(e: (usize, usize), src: Seq<usize>, v: usize) -> nat
    decreases src.len(),
{
    if src.len() == 0 {
        0
    } else {
        hits(e, src.drop_last(), v) + if joins(e, src.last(), v) {
            1nat
        } else {
            0nat
        }
    }
}

/// An edge that joins `v` to a node of `src` joins it to one of its entries.
proof fn lemma_hits_witness(e: (usize, usize), src: Seq<usize>, v: usize)
    requires
        hits(e, src, v) > 0,
    ensures
        exists|i: int| 0 <= i < src.len() && joins(e, #[trigger] src[i], v),
    decreases src.len(),
{
    if src.len() > 0 {
        if joins(e, src.last(), v) {
            assert(joins(e, src[src.len() - 1], v));
        } else {
            lemma_hits_witness(e, src.drop_last(), v);
            let i = choose|i: int|
                0 <= i < src.drop_last().len() && joins(e, #[trigger] src.drop_last()[i], v);
            assert(src.drop_last()[i] == src[i]);
        }
    }
}

/// An edge joins `v` to at most one node of a list without repetitions.
proof fn lemma_hits_once(e: (usize, usize), src: Seq<usize>, v: usize)
    requires
        ascending(src),
    ensures
        hits(e, src, v) <= 1,
    decreases src.len(),
{
    if src.len() > 0 {
        let front = src.drop_last();
        lemma_hits_once(e, front, v);
        if joins(e, src.last(), v) && hits(e, front, v) > 0 {
            lemma_hits_witness(e, front, v);
            let i = choose|i: int| 0 <= i < front.len() && joins(e, #[trigger] front[i], v);
            assert(front[i] == src[i]);
            assert(src[i] < src[src.len() - 1]);
        }
    }
}

/// One more edge adds to the degree what it joins.
proof fn lemma_degree_by_edge(edges: Seq<(usize, usize)>, src: Seq<usize>, v: usize)
    ensures
        edges.len() == 0 ==> degree(edges, src, v) == 0,
        edges.len() > 0 ==> degree(edges, src, v) == degree(edges.drop_last(), src, v) + hits(
            edges.last(),
            src,
            v,
        ),
    decreases src.len(),
{
    if src.len() > 0 {
        lemma_degree_by_edge(edges, src.drop_last(), v);
    }
}

/// A node has at most as many edges into a cell as there are edges.
pub proof fn lemma_degree_bound(edges: Seq<(usize, usize)>, src: Seq<usize>, v: usize)
    requires
        ascending(src),
    ensures
        degree(edges, src, v) <= edges.len(),
    decreases edges.len(),
{
    lemma_degree_by_edge(edges, src, v);
    if edges.len() > 0 {
        lemma_degree_bound(edges.drop_last(), src, v);
        lemma_hits_once(edges.last(), src, v);
    }
}

} // verus!
