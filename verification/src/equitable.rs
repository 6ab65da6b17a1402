//! Equitable colourings, and why refinement ends in the coarsest one.
//!
//! A colouring is equitable when, for any two cells, all members of the one
//! have the same number of edges into the other. Refinement leaves an
//! equitable colouring as it is, and it turns every colouring into an
//! equitable one; so refining a second time changes nothing. It only splits
//! cells, and no further than every equitable refinement of the colouring
//! does.
//!
//! That refinement ends in an equitable colouring is shown with blocks of
//! cells. At the start every cell is a block. Whenever a pending colour is
//! taken, its cell leaves its block and becomes a block of its own. All the
//! while a block either has all its cells pending, or all nodes of one
//! colour have the same number of edges into it and at most one of its
//! cells is not pending. When nothing is pending any more, every block is a
//! single cell.

use vstd::prelude::*;
use crate::graph::links;
use crate::partition::{ascending, lemma_node_colors, lemma_split_wf, ColouringView};
use crate::refinement::{
    count_pending, degree, first_pending, least_degree, lemma_count_pending_clear,
    lemma_first_pending, lemma_popped_ok, lemma_split_by_degree, lemma_split_step, lemma_sweep,
    lemma_with_degree, popped, refine, refine_from, same_degree, source, split_by_degree, start,
    state_ok, sweep, with_degree, RefineState,
};

verus! {

/// Whether all members of any cell have the same number of edges into any
/// cell.
pub open spec fn equitable(p: ColouringView, edges: Seq<(usize, usize)>) -> bool {
    forall|j: int, k: int|
        0 <= j < p.cells.len() && 0 <= k < p.cells.len() ==> #[trigger] same_degree(
            edges,
            p.cells[j].members,
            p.cells[k].members,
        )
}

/// In a valid colouring the members of a cell are the nodes of its colour.
pub proof fn lemma_members_by_color(p: ColouringView, k: int)
    requires
        p.wf(),
        0 <= k < p.cells.len(),
    ensures
        forall|n: int|
            0 <= n < p.size ==> (p.cells[k].members.contains(n as usize) <==> (
            #[trigger] p.color_of_node[n]) == p.cells[k].color),
        forall|i: int|
            0 <= i < p.cells[k].members.len() ==> (#[trigger] p.cells[k].members[i]) < p.size,
{
    lemma_node_colors(p);
    assert forall|n: int| 0 <= n < p.size implies (p.cells[k].members.contains(n as usize) <==> (
    #[trigger] p.color_of_node[n]) == p.cells[k].color) by {
        let j = p.cell_of_node[n] as int;
        assert(p.cells[j].members.contains(n as usize));
        if p.cells[k].members.contains(n as usize) {
            let i = choose|i: int|
                0 <= i < p.cells[k].members.len() && p.cells[k].members[i] == n as usize;
            assert(p.cell_of_node[p.cells[k].members[i] as int] == k);
        }
        if p.color_of_node[n] == p.cells[k].color {
            if j != k {
                assert(p.cells[j].color != p.cells[k].color);
            }
        }
    }
}

/// A sweep against cells that all have one degree towards `src` changes
/// nothing.
proof fn lemma_sweep_fixed(
    st: RefineState,
    edges: Seq<(usize, usize)>,
    src: Seq<usize>,
    c: nat,
    n: nat,
)
    requires
        state_ok(st),
        forall|k: int|
            0 <= k < st.coloring.cells.len() ==> #[trigger] same_degree(
                edges,
                src,
                st.coloring.cells[k].members,
            ),
    ensures
        sweep(st, edges, src, c, n) == st,
    decreases n - c,
{
    if c < n {
        if st.coloring.color_of_cell.dom().contains(c as usize) {
            let k = st.coloring.color_of_cell[c as usize] as int;
            assert(same_degree(edges, src, st.coloring.cells[k].members));
        }
        lemma_sweep_fixed(st, edges, src, c + 1, n);
    }
}

/// Refinement from a state with an equitable colouring only works off the
/// pending colours.
proof fn lemma_refine_from_fixed(st: RefineState, edges: Seq<(usize, usize)>)
    requires
        state_ok(st),
        equitable(st.coloring, edges),
    ensures
        refine_from(st, edges).coloring == st.coloring,
        refine_from(st, edges).trace == st.trace,
    decreases count_pending(st.pending),
{
    if first_pending(st.pending, 0) < st.pending.len() {
        lemma_first_pending(st.pending, 0);
        lemma_count_pending_clear(st.pending, first_pending(st.pending, 0));
        lemma_popped_ok(st);
        let j = st.coloring.color_of_cell[first_pending(st.pending, 0) as usize] as int;
        assert forall|k: int| 0 <= k < st.coloring.cells.len() implies #[trigger] same_degree(
            edges,
            source(st),
            popped(st).coloring.cells[k].members,
        ) by {
            assert(same_degree(edges, st.coloring.cells[j].members, st.coloring.cells[k].members));
        }
        lemma_sweep_fixed(popped(st), edges, source(st), 0, st.coloring.size);
        lemma_refine_from_fixed(popped(st), edges);
    }
}

/// The state in which refinement starts is in order.
pub proof fn lemma_start_ok(p: ColouringView)
    requires
        p.wf(),
    ensures
        state_ok(start(p)),
{
}

/// Refinement leaves an equitable colouring as it is, with an empty trace.
pub proof fn lemma_refine_fixed(p: ColouringView, edges: Seq<(usize, usize)>)
    requires
        p.wf(),
        equitable(p, edges),
    ensures
        refine(p, edges) == (p, Seq::<usize>::empty()),
{
    if !p.is_discrete() {
        lemma_start_ok(p);
        lemma_refine_from_fixed(start(p), edges);
    }
}

/// What a split does to the colours of the nodes: those split off keep the
/// colour of the cell, the others of the cell move up to a colour that no
/// node had, and all other nodes keep theirs.
pub proof fn lemma_split_colors(p: ColouringView, k: int, sub: Seq<usize>)
    requires
        p.wf(),
        p.can_split(k, sub),
    ensures
        p.split(k, sub).wf(),
        p.split(k, sub).size == p.size,
        p.cells[k].color < p.split(k, sub).cells[k].color < p.size,
        forall|n: int|
            0 <= n < p.size ==> (#[trigger] p.color_of_node[n]) != p.split(k, sub).cells[k].color,
        forall|n: int|
            0 <= n < p.size ==> #[trigger] p.split(k, sub).color_of_node[n] == if p.color_of_node[n]
                == p.cells[k].color && !sub.contains(n as usize) {
                p.split(k, sub).cells[k].color
            } else {
                p.color_of_node[n]
            },
        forall|i: int|
            0 <= i < sub.len() ==> (#[trigger] sub[i]) < p.size && p.color_of_node[sub[i] as int]
                == p.cells[k].color,
{
    let q = p.split(k, sub);
    let low = p.cells[k].color;
    let high = q.cells[k].color;
    let ms = p.cells[k].members;
    lemma_split_wf(p, k, sub);
    crate::partition::lemma_retain_lengths(ms, sub);
    lemma_node_colors(p);
    lemma_members_by_color(p, k);
    assert forall|n: int| 0 <= n < p.size implies (#[trigger] p.color_of_node[n]) != high by {
        let j = p.cell_of_node[n] as int;
        if j != k {
            assert(p.cells[j].color + p.cells[j].members.len() <= p.cells[k].color
                || p.cells[k].color + p.cells[k].members.len() <= p.cells[j].color);
            assert(p.cells[j].members.len() > 0);
        }
    }
    assert forall|n: int| 0 <= n < p.size implies #[trigger] q.color_of_node[n]
        == if p.color_of_node[n] == low && !sub.contains(n as usize) {
        high
    } else {
        p.color_of_node[n]
    } by {
        let j = p.cell_of_node[n] as int;
        if j != k {
            assert(p.cells[j].color != p.cells[k].color);
        }
    }
    assert forall|i: int| 0 <= i < sub.len() implies (#[trigger] sub[i]) < p.size
        && p.color_of_node[sub[i] as int] == low by {
        assert(ms.contains(sub[i]));
        let b = choose|b: int| 0 <= b < ms.len() && ms[b] == sub[i];
        assert(p.cells[k].members[b] < p.size);
    }
}

/// Whether the state `b` can have come from the state `a` by splits: nodes
/// that share a colour in `b` shared one in `a`, what was pending is still,
/// and every node whose colour changed has a pending colour.
pub open spec fn finer(a: RefineState, b: RefineState) -> bool {
    &&& b.coloring.size == a.coloring.size
    &&& forall|u: int, v: int|
        #![trigger b.coloring.color_of_node[u], b.coloring.color_of_node[v]]
        0 <= u < a.coloring.size && 0 <= v < a.coloring.size && b.coloring.color_of_node[u]
            == b.coloring.color_of_node[v] ==> a.coloring.color_of_node[u]
            == a.coloring.color_of_node[v]
    &&& forall|x: int| 0 <= x < a.pending.len() && #[trigger] a.pending[x] ==> b.pending[x]
    &&& forall|u: int|
        0 <= u < a.coloring.size && (#[trigger] b.coloring.color_of_node[u])
            != a.coloring.color_of_node[u] ==> b.pending[b.coloring.color_of_node[u] as int]
}

/// Whether nodes that share a colour below `c` have the same degree towards
/// `src`.
pub open spec fn uniform_below(
    st: RefineState,
    edges: Seq<(usize, usize)>,
    src: Seq<usize>,
    c: nat,
) -> bool {
    forall|u: int, v: int|
        #![trigger st.coloring.color_of_node[u], st.coloring.color_of_node[v]]
        0 <= u < st.coloring.size && 0 <= v < st.coloring.size && st.coloring.color_of_node[u]
            == st.coloring.color_of_node[v] && st.coloring.color_of_node[u] < c ==> degree(
            edges,
            src,
            u as usize,
        ) == degree(edges, src, v as usize)
}

/// Splitting cell `k` by degree gives a finer state in which nodes of the
/// old cell that still share a colour have the same degree; the colours
/// outside the cell stay, those inside do not go down.
#[verifier::rlimit(50)]
proof fn lemma_split_by_degree_colors(
    st: RefineState,
    edges: Seq<(usize, usize)>,
    src: Seq<usize>,
    k: int,
)
    requires
        state_ok(st),
        0 <= k < st.coloring.cells.len(),
    ensures
        finer(st, split_by_degree(st, edges, src, k)),
        forall|u: int, v: int|
            #![trigger
                split_by_degree(st, edges, src, k).coloring.color_of_node[u],
                split_by_degree(st, edges, src, k).coloring.color_of_node[v]
            ]
            0 <= u < st.coloring.size && 0 <= v < st.coloring.size && split_by_degree(
                st,
                edges,
                src,
                k,
            ).coloring.color_of_node[u] == split_by_degree(
                st,
                edges,
                src,
                k,
            ).coloring.color_of_node[v] && st.coloring.color_of_node[u]
                == st.coloring.cells[k].color ==> degree(edges, src, u as usize) == degree(
                edges,
                src,
                v as usize,
            ),
        forall|u: int|
            0 <= u < st.coloring.size && st.coloring.color_of_node[u] != st.coloring.cells[k].color
                ==> #[trigger] split_by_degree(st, edges, src, k).coloring.color_of_node[u]
                == st.coloring.color_of_node[u],
        forall|u: int|
            0 <= u < st.coloring.size && st.coloring.color_of_node[u] == st.coloring.cells[k].color
                ==> #[trigger] split_by_degree(st, edges, src, k).coloring.color_of_node[u]
                >= st.coloring.cells[k].color,
    decreases st.coloring.cells[k].members.len(),
{
    let p = st.coloring;
    let ms = p.cells[k].members;
    let low = p.cells[k].color;
    let r = split_by_degree(st, edges, src, k);
    lemma_members_by_color(p, k);
    if same_degree(edges, src, ms) {
        assert forall|u: int, v: int|
            #![trigger r.coloring.color_of_node[u], r.coloring.color_of_node[v]]
            0 <= u < p.size && 0 <= v < p.size && r.coloring.color_of_node[u]
                == r.coloring.color_of_node[v] && p.color_of_node[u] == low implies degree(
            edges,
            src,
            u as usize,
        ) == degree(edges, src, v as usize) by {
            assert(ms.contains(u as usize));
            assert(ms.contains(v as usize));
            let a = choose|a: int| 0 <= a < ms.len() && ms[a] == u as usize;
            let b = choose|b: int| 0 <= b < ms.len() && ms[b] == v as usize;
            assert(degree(edges, src, ms[a]) == degree(edges, src, ms[b]));
        }
    } else {
        let d = least_degree(edges, src, ms);
        let sub = with_degree(edges, src, ms, d);
        let q = p.split(k, sub);
        let high = q.cells[k].color;
        let next = RefineState {
            coloring: q,
            pending: st.pending.update(high as int, true),
            trace: st.trace.push(high),
        };
        lemma_split_step(st, edges, src, k);
        lemma_split_colors(p, k, sub);
        lemma_with_degree(edges, src, ms, d);
        lemma_split_by_degree_colors(next, edges, src, k);
        lemma_split_by_degree(next, edges, src, k);
        lemma_node_colors(q);
        lemma_node_colors(split_by_degree(next, edges, src, k).coloring);
        assert(r == split_by_degree(next, edges, src, k));
        assert(finer(st, next));
        assert(finer(next, r));
        assert(finer(st, r)) by {
            assert forall|u: int|
                0 <= u < p.size && (#[trigger] r.coloring.color_of_node[u])
                    != p.color_of_node[u] implies r.pending[r.coloring.color_of_node[u] as int] by {
                if r.coloring.color_of_node[u] == q.color_of_node[u] {
                    assert(next.pending[q.color_of_node[u] as int]);
                }
            }
            assert forall|u: int, v: int|
                #![trigger r.coloring.color_of_node[u], r.coloring.color_of_node[v]]
                0 <= u < p.size && 0 <= v < p.size && r.coloring.color_of_node[u]
                    == r.coloring.color_of_node[v] implies p.color_of_node[u]
                == p.color_of_node[v] by {
                assert(q.color_of_node[u] == q.color_of_node[v]);
            }
        }
        assert forall|u: int|
            0 <= u < p.size && p.color_of_node[u] != low implies #[trigger] r.coloring.color_of_node[u]
            == p.color_of_node[u] by {
            assert(q.color_of_node[u] == p.color_of_node[u]);
        }
        assert forall|u: int|
            0 <= u < p.size && p.color_of_node[u] == low implies #[trigger] r.coloring.color_of_node[u]
            >= low by {
            if sub.contains(u as usize) {
                assert(q.color_of_node[u] == low);
            } else {
                assert(q.color_of_node[u] == high);
            }
        }
        assert forall|u: int, v: int|
            #![trigger r.coloring.color_of_node[u], r.coloring.color_of_node[v]]
            0 <= u < p.size && 0 <= v < p.size && r.coloring.color_of_node[u]
                == r.coloring.color_of_node[v] && p.color_of_node[u] == low implies degree(
            edges,
            src,
            u as usize,
        ) == degree(edges, src, v as usize) by {
            assert(q.color_of_node[u] == q.color_of_node[v]);
            assert(p.color_of_node[v] == low);
            if sub.contains(u as usize) {
                assert(q.color_of_node[u] == low);
                assert(sub.contains(v as usize));
            } else {
                assert(q.color_of_node[u] == high);
            }
        }
    }
}

/// A sweep gives a finer state; if the nodes that share a colour below `c`
/// had the same degree before, then all that share a colour have after.
#[verifier::rlimit(50)]
proof fn lemma_sweep_colors(
    st: RefineState,
    edges: Seq<(usize, usize)>,
    src: Seq<usize>,
    c: nat,
    n: nat,
)
    requires
        state_ok(st),
        n == st.coloring.size,
        uniform_below(st, edges, src, c),
    ensures
        finer(st, sweep(st, edges, src, c, n)),
        uniform_below(sweep(st, edges, src, c, n), edges, src, n),
    decreases n - c,
{
    let p = st.coloring;
    lemma_node_colors(p);
    if c < n {
        if p.color_of_cell.dom().contains(c as usize) {
            let k = p.color_of_cell[c as usize] as int;
            let mid = split_by_degree(st, edges, src, k);
            lemma_split_by_degree(st, edges, src, k);
            lemma_split_by_degree_colors(st, edges, src, k);
            assert(uniform_below(mid, edges, src, c + 1)) by {
                assert forall|u: int, v: int|
                    #![trigger mid.coloring.color_of_node[u], mid.coloring.color_of_node[v]]
                    0 <= u < mid.coloring.size && 0 <= v < mid.coloring.size
                        && mid.coloring.color_of_node[u] == mid.coloring.color_of_node[v]
                        && mid.coloring.color_of_node[u] < c + 1 implies degree(
                    edges,
                    src,
                    u as usize,
                ) == degree(edges, src, v as usize) by {
                    assert(p.color_of_node[u] == p.color_of_node[v]);
                    if p.color_of_node[u] != c {
                        assert(mid.coloring.color_of_node[u] == p.color_of_node[u]);
                        assert(mid.coloring.color_of_node[v] == p.color_of_node[v]);
                    }
                }
            }
            lemma_sweep_colors(mid, edges, src, c + 1, n);
            let r = sweep(mid, edges, src, c + 1, n);
            lemma_sweep(mid, edges, src, c + 1, n);
            lemma_node_colors(mid.coloring);
            lemma_node_colors(r.coloring);
            assert(finer(st, r)) by {
                assert forall|u: int|
                    0 <= u < p.size && (#[trigger] r.coloring.color_of_node[u])
                        != p.color_of_node[u] implies r.pending[r.coloring.color_of_node[u] as int] by {
                    if r.coloring.color_of_node[u] == mid.coloring.color_of_node[u] {
                        assert(mid.pending[mid.coloring.color_of_node[u] as int]);
                    }
                }
                assert forall|u: int, v: int|
                    #![trigger r.coloring.color_of_node[u], r.coloring.color_of_node[v]]
                    0 <= u < p.size && 0 <= v < p.size && r.coloring.color_of_node[u]
                        == r.coloring.color_of_node[v] implies p.color_of_node[u]
                    == p.color_of_node[v] by {
                    assert(mid.coloring.color_of_node[u] == mid.coloring.color_of_node[v]);
                }
            }
        } else {
            assert(uniform_below(st, edges, src, c + 1)) by {
                assert forall|u: int, v: int|
                    #![trigger p.color_of_node[u], p.color_of_node[v]]
                    0 <= u < p.size && 0 <= v < p.size && p.color_of_node[u] == p.color_of_node[v]
                        && p.color_of_node[u] < c + 1 implies degree(edges, src, u as usize)
                    == degree(edges, src, v as usize) by {
                    let j = p.cell_of_node[u] as int;
                    assert(p.color_of_cell.dom().contains(p.cells[j].color));
                }
            }
            lemma_sweep_colors(st, edges, src, c + 1, n);
        }
    }
}

/// The number of edges that join `v` to a node below `n` that `sel` picks.
pub open spec fn degree_where(
    edges: Seq<(usize, usize)>,
    sel: spec_fn(int) -> bool,
    n: nat,
    v: usize,
) -> nat
    decreases n,
{
    if n == 0 {
        0
    } else {
        degree_where(edges, sel, (n - 1) as nat, v) + if sel(n - 1) {
            links(edges, (n - 1) as usize, v)
        } else {
            0
        }
    }
}

/// The nodes that `blk` puts into the block `x`.
pub open spec fn in_block(blk: Seq<int>, x: int) -> spec_fn(int) -> bool {
    |t: int| blk[t] == x
}

/// The nodes of the block `x` that have the colour `s`.
pub open spec fn in_block_with_color(blk: Seq<int>, x: int, col: Seq<usize>, s: int) -> spec_fn(
    int,
) -> bool {
    |t: int| blk[t] == x && col[t] == s
}

/// The degree towards a set of nodes is the sum of the degrees towards two
/// parts that make it up.
proof fn lemma_degree_where_parts(
    edges: Seq<(usize, usize)>,
    whole: spec_fn(int) -> bool,
    one: spec_fn(int) -> bool,
    other: spec_fn(int) -> bool,
    n: nat,
    v: usize,
)
    requires
        forall|t: int| 0 <= t < n ==> (#[trigger] whole(t) <==> one(t) || other(t)),
        forall|t: int| 0 <= t < n ==> !(#[trigger] one(t) && other(t)),
    ensures
        degree_where(edges, whole, n, v) == degree_where(edges, one, n, v) + degree_where(
            edges,
            other,
            n,
            v,
        ),
    decreases n,
{
    if n > 0 {
        lemma_degree_where_parts(edges, whole, one, other, (n - 1) as nat, v);
        assert(whole(n - 1) <==> one(n - 1) || other(n - 1));
        assert(!(one(n - 1) && other(n - 1)));
    }
}

/// The degree towards no nodes is zero.
proof fn lemma_degree_where_none(
    edges: Seq<(usize, usize)>,
    sel: spec_fn(int) -> bool,
    n: nat,
    v: usize,
)
    requires
        forall|t: int| 0 <= t < n ==> !#[trigger] sel(t),
    ensures
        degree_where(edges, sel, n, v) == 0,
    decreases n,
{
    if n > 0 {
        lemma_degree_where_none(edges, sel, (n - 1) as nat, v);
        assert(!sel(n - 1));
    }
}

/// The degree towards an ascending list of nodes is the degree towards the
/// nodes that the list holds.
proof fn lemma_degree_where_list(
    edges: Seq<(usize, usize)>,
    ms: Seq<usize>,
    sel: spec_fn(int) -> bool,
    n: nat,
    v: usize,
)
    requires
        n <= usize::MAX,
        ascending(ms),
        forall|i: int| 0 <= i < ms.len() ==> (#[trigger] ms[i]) < n,
        forall|t: int| 0 <= t < n ==> (ms.contains(t as usize) <==> #[trigger] sel(t)),
    ensures
        degree(edges, ms, v) == degree_where(edges, sel, n, v),
    decreases n,
{
    if n == 0 {
        if ms.len() > 0 {
            assert(ms[0] < n);
        }
    } else {
        let last = (n - 1) as int;
        if sel(last) {
            assert(ms.contains(last as usize));
            let i = choose|i: int| 0 <= i < ms.len() && ms[i] == last as usize;
            if i < ms.len() - 1 {
                assert(ms[i] < ms[ms.len() - 1]);
                assert(ms[ms.len() - 1] < n);
            }
            let front = ms.drop_last();
            assert forall|a: int| 0 <= a < front.len() implies (#[trigger] front[a]) < n - 1 by {
                assert(ms[a] < ms[ms.len() - 1]);
            }
            assert forall|t: int| 0 <= t < n - 1 implies (front.contains(t as usize)
                <==> #[trigger] sel(t)) by {
                if front.contains(t as usize) {
                    let a = choose|a: int| 0 <= a < front.len() && front[a] == t as usize;
                    assert(ms[a] == t as usize);
                }
                if sel(t) {
                    assert(ms.contains(t as usize));
                    let a = choose|a: int| 0 <= a < ms.len() && ms[a] == t as usize;
                    assert(front[a] == t as usize);
                }
            }
            lemma_degree_where_list(edges, front, sel, (n - 1) as nat, v);
        } else {
            assert forall|a: int| 0 <= a < ms.len() implies (#[trigger] ms[a]) < n - 1 by {
                if ms[a] == last {
                    assert(ms.contains(last as usize));
                }
            }
            lemma_degree_where_list(edges, ms, sel, (n - 1) as nat, v);
        }
    }
}

/// Whether the block `x` is settled under the colours `col` and the pending
/// flags `pending`: either all its nodes have a pending colour, or nodes
/// that share a colour have the same degree towards it and its nodes without
/// a pending colour share one colour.
pub open spec fn block_settled(
    col: Seq<usize>,
    pending: Seq<bool>,
    blk: Seq<int>,
    edges: Seq<(usize, usize)>,
    x: int,
) -> bool {
    let n = col.len();
    ||| forall|u: int| 0 <= u < n && #[trigger] blk[u] == x ==> pending[col[u] as int]
    ||| {
        &&& forall|u: int, v: int|
            #![trigger col[u], col[v]]
            0 <= u < n && 0 <= v < n && col[u] == col[v] ==> degree_where(
                edges,
                in_block(blk, x),
                n,
                u as usize,
            ) == degree_where(edges, in_block(blk, x), n, v as usize)
        &&& forall|u: int, v: int|
            #![trigger blk[u], blk[v]]
            0 <= u < n && 0 <= v < n && blk[u] == x && blk[v] == x && !pending[col[u] as int]
                && !pending[col[v] as int] ==> col[u] == col[v]
    }
}

/// Whether `blk` groups the nodes into blocks that are unions of cells, all
/// of them settled.
pub open spec fn blocks_ok(st: RefineState, blk: Seq<int>, edges: Seq<(usize, usize)>) -> bool {
    let p = st.coloring;
    &&& blk.len() == p.size
    &&& forall|u: int| 0 <= u < p.size ==> #[trigger] blk[u] >= 0
    &&& forall|u: int, v: int|
        #![trigger blk[u], blk[v]]
        0 <= u < p.size && 0 <= v < p.size && p.color_of_node[u] == p.color_of_node[v] ==> blk[u]
            == blk[v]
    &&& forall|w: int|
        0 <= w < p.size ==> block_settled(p.color_of_node, st.pending, blk, edges, #[trigger] blk[w])
}

/// The blocks after the cell of colour `s` was taken: that cell becomes a
/// block of its own.
pub open spec fn blocks_after(blk: Seq<int>, col: Seq<usize>, s: int) -> Seq<int> {
    Seq::new(
        blk.len(),
        |u: int|
            if col[u] == s {
                0
            } else {
                blk[u] + 1
            },
    )
}

/// With nothing pending and all blocks settled, the colouring is equitable.
#[verifier::rlimit(50)]
proof fn lemma_settled_equitable(st: RefineState, blk: Seq<int>, edges: Seq<(usize, usize)>)
    requires
        state_ok(st),
        blocks_ok(st, blk, edges),
        first_pending(st.pending, 0) >= st.pending.len(),
    ensures
        equitable(st.coloring, edges),
{
    let p = st.coloring;
    let col = p.color_of_node;
    lemma_first_pending(st.pending, 0);
    lemma_node_colors(p);
    assert forall|j: int, k: int| 0 <= j < p.cells.len() && 0 <= k < p.cells.len() implies
        #[trigger] same_degree(edges, p.cells[j].members, p.cells[k].members) by {
        let mj = p.cells[j].members;
        let mk = p.cells[k].members;
        lemma_members_by_color(p, j);
        lemma_members_by_color(p, k);
        let w = mj[0] as int;
        assert(mj.contains(mj[0]));
        let x = blk[w];
        assert(block_settled(col, st.pending, blk, edges, blk[w]));
        assert(!st.pending[col[w] as int]);
        assert forall|t: int| 0 <= t < p.size implies (mj.contains(t as usize)
            <==> #[trigger] in_block(blk, x)(t)) by {
            if blk[t] == x {
                assert(!st.pending[col[t] as int]);
                assert(col[t] == col[w]);
            }
            if mj.contains(t as usize) {
                assert(col[t] == col[w]);
                assert(blk[t] == blk[w]);
            }
        }
        assert forall|a: int, b: int| 0 <= a < mk.len() && 0 <= b < mk.len() implies degree(
            edges,
            mj,
            #[trigger] mk[a],
        ) == degree(edges, mj, #[trigger] mk[b]) by {
            assert(mk.contains(mk[a]));
            assert(mk.contains(mk[b]));
            lemma_degree_where_list(edges, mj, in_block(blk, x), p.size, mk[a]);
            lemma_degree_where_list(edges, mj, in_block(blk, x), p.size, mk[b]);
            assert(col[mk[a] as int] == col[mk[b] as int]);
        }
    }
}

/// What a sweep against the cell of colour `s` does to the colours `col`
/// and the pending flags `pending`, as far as the blocks need it.
pub open spec fn swept(
    col: Seq<usize>,
    pending: Seq<bool>,
    col2: Seq<usize>,
    pending2: Seq<bool>,
    edges: Seq<(usize, usize)>,
    s: int,
    src: Seq<usize>,
) -> bool {
    let n = col.len();
    &&& n <= usize::MAX
    &&& col2.len() == n
    &&& pending.len() == n
    &&& pending2.len() == n
    &&& 0 <= s < n
    &&& forall|u: int| 0 <= u < n ==> #[trigger] col[u] < n
    &&& forall|u: int| 0 <= u < n ==> #[trigger] col2[u] < n
    &&& forall|u: int, v: int|
        #![trigger col2[u], col2[v]]
        0 <= u < n && 0 <= v < n && col2[u] == col2[v] ==> col[u] == col[v] && degree(
            edges,
            src,
            u as usize,
        ) == degree(edges, src, v as usize)
    &&& forall|x: int| 0 <= x < n && #[trigger] pending[x] && x != s ==> pending2[x]
    &&& forall|u: int| 0 <= u < n && (#[trigger] col2[u]) != col[u] ==> pending2[col2[u] as int]
    &&& ascending(src)
    &&& src.len() > 0
    &&& forall|i: int| 0 <= i < src.len() ==> (#[trigger] src[i]) < n
    &&& forall|t: int| 0 <= t < n ==> (src.contains(t as usize) <==> (#[trigger] col[t]) == s)
}

/// The block of a node of the cell taken is settled after the sweep.
proof fn lemma_block_taken(
    col: Seq<usize>,
    pending: Seq<bool>,
    col2: Seq<usize>,
    pending2: Seq<bool>,
    blk: Seq<int>,
    edges: Seq<(usize, usize)>,
    s: int,
    src: Seq<usize>,
)
    requires
        swept(col, pending, col2, pending2, edges, s, src),
        blk.len() == col.len(),
        forall|u: int| 0 <= u < col.len() ==> #[trigger] blk[u] >= 0,
    ensures
        block_settled(col2, pending2, blocks_after(blk, col, s), edges, 0),
{
    let n = col.len();
    let blk2 = blocks_after(blk, col, s);
    assert forall|t: int| 0 <= t < n implies (src.contains(t as usize) <==> #[trigger] in_block(
        blk2,
        0,
    )(t)) by {
        assert(blk[t] >= 0);
        assert(src.contains(t as usize) <==> col[t] == s);
    }
    assert forall|u: int, v: int|
        #![trigger col2[u], col2[v]]
        0 <= u < n && 0 <= v < n && col2[u] == col2[v] implies degree_where(
        edges,
        in_block(blk2, 0),
        n,
        u as usize,
    ) == degree_where(edges, in_block(blk2, 0), n, v as usize) by {
        lemma_degree_where_list(edges, src, in_block(blk2, 0), n, u as usize);
        lemma_degree_where_list(edges, src, in_block(blk2, 0), n, v as usize);
    }
    assert forall|u: int, v: int|
        #![trigger blk2[u], blk2[v]]
        0 <= u < n && 0 <= v < n && blk2[u] == 0 && blk2[v] == 0 && !pending2[col2[u] as int]
            && !pending2[col2[v] as int] implies col2[u] == col2[v] by {
        assert(blk[u] >= 0);
        assert(blk[v] >= 0);
        assert(col2[u] == col[u]);
        assert(col2[v] == col[v]);
    }
}

/// The rest of a settled block, without the cell taken, is settled after
/// the sweep.
#[verifier::rlimit(50)]
proof fn lemma_block_rest(
    col: Seq<usize>,
    pending: Seq<bool>,
    col2: Seq<usize>,
    pending2: Seq<bool>,
    blk: Seq<int>,
    edges: Seq<(usize, usize)>,
    s: int,
    src: Seq<usize>,
    x: int,
)
    requires
        swept(col, pending, col2, pending2, edges, s, src),
        blk.len() == col.len(),
        forall|u: int| 0 <= u < col.len() ==> #[trigger] blk[u] >= 0,
        forall|u: int, v: int|
            #![trigger blk[u], blk[v]]
            0 <= u < col.len() && 0 <= v < col.len() && col[u] == col[v] ==> blk[u] == blk[v],
        block_settled(col, pending, blk, edges, x),
        x >= 0,
    ensures
        block_settled(col2, pending2, blocks_after(blk, col, s), edges, x + 1),
{
    let n = col.len();
    let blk2 = blocks_after(blk, col, s);
    let x2 = x + 1;
    let w0 = src[0] as int;
    assert(src.contains(src[0]));
    assert(col[w0] == s);
    assert forall|t: int| 0 <= t < n implies (#[trigger] in_block(blk2, x2)(t) <==> blk[t] == x
        && col[t] != s) by {
        assert(blk[t] >= 0);
    }
    if forall|u: int| 0 <= u < n && #[trigger] blk[u] == x ==> pending[col[u] as int] {
        assert forall|u: int| 0 <= u < n && #[trigger] blk2[u] == x2 implies pending2[col2[u] as int] by {
            assert(in_block(blk2, x2)(u));
            assert(blk[u] == x);
            assert(pending[col[u] as int]);
            assert(col[u] < n);
        }
    } else {
        assert forall|u: int, v: int|
            #![trigger blk2[u], blk2[v]]
            0 <= u < n && 0 <= v < n && blk2[u] == x2 && blk2[v] == x2 && !pending2[col2[u] as int]
                && !pending2[col2[v] as int] implies col2[u] == col2[v] by {
            assert(in_block(blk2, x2)(u));
            assert(in_block(blk2, x2)(v));
            assert(col2[u] == col[u]);
            assert(col2[v] == col[v]);
            assert(col[u] < n);
            assert(col[v] < n);
            if pending[col[u] as int] {
                assert(pending2[col[u] as int]);
            }
            if pending[col[v] as int] {
                assert(pending2[col[v] as int]);
            }
            assert(blk[u] == x && blk[v] == x);
        }
        let taken = in_block_with_color(blk, x, col, s);
        assert forall|t: int| 0 <= t < n implies (#[trigger] in_block(blk, x)(t) <==> in_block(
            blk2,
            x2,
        )(t) || taken(t)) by {
            assert(in_block(blk2, x2)(t) <==> blk[t] == x && col[t] != s);
        }
        assert forall|t: int| 0 <= t < n implies !(#[trigger] in_block(blk2, x2)(t) && taken(
            t,
        )) by {
            assert(in_block(blk2, x2)(t) <==> blk[t] == x && col[t] != s);
        }
        if blk[w0] == x {
            assert forall|t: int| 0 <= t < n implies (src.contains(t as usize)
                <==> #[trigger] taken(t)) by {
                assert(src.contains(t as usize) <==> col[t] == s);
                if col[t] == s {
                    assert(blk[t] == blk[w0]);
                }
            }
        } else {
            assert forall|t: int| 0 <= t < n implies !#[trigger] taken(t) by {
                if col[t] == s {
                    assert(blk[t] == blk[w0]);
                }
            }
        }
        assert forall|u: int, v: int|
            #![trigger col2[u], col2[v]]
            0 <= u < n && 0 <= v < n && col2[u] == col2[v] implies degree_where(
            edges,
            in_block(blk2, x2),
            n,
            u as usize,
        ) == degree_where(edges, in_block(blk2, x2), n, v as usize) by {
            assert(col[u] == col[v]);
            assert(degree_where(edges, in_block(blk, x), n, u as usize) == degree_where(
                edges,
                in_block(blk, x),
                n,
                v as usize,
            ));
            lemma_degree_where_parts(
                edges,
                in_block(blk, x),
                in_block(blk2, x2),
                taken,
                n,
                u as usize,
            );
            lemma_degree_where_parts(
                edges,
                in_block(blk, x),
                in_block(blk2, x2),
                taken,
                n,
                v as usize,
            );
            if blk[w0] == x {
                lemma_degree_where_list(edges, src, taken, n, u as usize);
                lemma_degree_where_list(edges, src, taken, n, v as usize);
            } else {
                lemma_degree_where_none(edges, taken, n, u as usize);
                lemma_degree_where_none(edges, taken, n, v as usize);
            }
        }
    }
}

/// The first pending colour and the sweep against its cell, seen from the
/// colours of the nodes.
#[verifier::rlimit(50)]
proof fn lemma_sweep_swept(st: RefineState, edges: Seq<(usize, usize)>)
    requires
        state_ok(st),
        first_pending(st.pending, 0) < st.pending.len(),
    ensures
        swept(
            st.coloring.color_of_node,
            st.pending,
            sweep(popped(st), edges, source(st), 0, st.coloring.size).coloring.color_of_node,
            sweep(popped(st), edges, source(st), 0, st.coloring.size).pending,
            edges,
            first_pending(st.pending, 0),
            source(st),
        ),
        st.coloring.color_of_node.len() == st.coloring.size,
        sweep(popped(st), edges, source(st), 0, st.coloring.size).coloring.size
            == st.coloring.size,
{
    let p = st.coloring;
    let n = p.size;
    let s = first_pending(st.pending, 0);
    let src = source(st);
    let st1 = popped(st);
    let st2 = sweep(st1, edges, src, 0, n);
    lemma_first_pending(st.pending, 0);
    lemma_popped_ok(st);
    lemma_sweep(st1, edges, src, 0, n);
    lemma_sweep_colors(st1, edges, src, 0, n);
    lemma_node_colors(p);
    lemma_node_colors(st2.coloring);
    let ks = p.color_of_cell[s as usize] as int;
    lemma_members_by_color(p, ks);
    assert(p.cells[ks].color == s);
    assert(src == p.cells[ks].members);
    assert(src.len() > 0);
    assert(ascending(src));
    assert forall|x: int| 0 <= x < n && #[trigger] st.pending[x] && x != s implies st2.pending[x] by {
        assert(st1.pending[x]);
    }
}

/// After the first pending colour was taken and the cells swept against its
/// cell, the blocks with that cell set apart are settled again.
#[verifier::rlimit(50)]
proof fn lemma_blocks_after_sweep(st: RefineState, blk: Seq<int>, edges: Seq<(usize, usize)>)
    requires
        state_ok(st),
        blocks_ok(st, blk, edges),
        first_pending(st.pending, 0) < st.pending.len(),
    ensures
        blocks_ok(
            sweep(popped(st), edges, source(st), 0, st.coloring.size),
            blocks_after(blk, st.coloring.color_of_node, first_pending(st.pending, 0)),
            edges,
        ),
{
    let n = st.coloring.size;
    let col = st.coloring.color_of_node;
    let s = first_pending(st.pending, 0);
    let src = source(st);
    let st2 = sweep(popped(st), edges, src, 0, n);
    let col2 = st2.coloring.color_of_node;
    let blk2 = blocks_after(blk, col, s);
    lemma_sweep_swept(st, edges);
    assert forall|u: int| 0 <= u < n implies #[trigger] blk2[u] >= 0 by {
        assert(blk[u] >= 0);
    }
    assert forall|w: int| 0 <= w < n implies block_settled(
        col2,
        st2.pending,
        blk2,
        edges,
        #[trigger] blk2[w],
    ) by {
        if col[w] == s {
            lemma_block_taken(col, st.pending, col2, st2.pending, blk, edges, s, src);
        } else {
            assert(block_settled(col, st.pending, blk, edges, blk[w]));
            assert(blk[w] >= 0);
            lemma_block_rest(col, st.pending, col2, st2.pending, blk, edges, s, src, blk[w]);
        }
    }
    assert forall|u: int, v: int|
        #![trigger blk2[u], blk2[v]]
        0 <= u < n && 0 <= v < n && col2[u] == col2[v] implies blk2[u] == blk2[v] by {
        assert(col[u] == col[v]);
        assert(blk[u] == blk[v]);
    }
}

/// Refinement from a state whose blocks are settled ends in an equitable
/// colouring.
proof fn lemma_refine_from_equitable(st: RefineState, blk: Seq<int>, edges: Seq<(usize, usize)>)
    requires
        state_ok(st),
        blocks_ok(st, blk, edges),
    ensures
        equitable(refine_from(st, edges).coloring, edges),
        state_ok(refine_from(st, edges)),
        refine_from(st, edges).coloring.size == st.coloring.size,
        refine_from(st, edges).coloring.cells.len() >= st.coloring.cells.len(),
    decreases st.coloring.size - st.coloring.cells.len(), count_pending(st.pending),
{
    if first_pending(st.pending, 0) >= st.pending.len() {
        lemma_settled_equitable(st, blk, edges);
    } else {
        let next = sweep(popped(st), edges, source(st), 0, st.coloring.size);
        lemma_first_pending(st.pending, 0);
        lemma_count_pending_clear(st.pending, first_pending(st.pending, 0));
        lemma_popped_ok(st);
        lemma_sweep(popped(st), edges, source(st), 0, st.coloring.size);
        lemma_blocks_after_sweep(st, blk, edges);
        lemma_refine_from_equitable(
            next,
            blocks_after(blk, st.coloring.color_of_node, first_pending(st.pending, 0)),
            edges,
        );
    }
}

/// Refinement keeps a colouring valid, with as many nodes and at least as
/// many cells, and ends in an equitable colouring.
pub proof fn lemma_refine_equitable(p: ColouringView, edges: Seq<(usize, usize)>)
    requires
        p.wf(),
    ensures
        refine(p, edges).0.wf(),
        refine(p, edges).0.size == p.size,
        refine(p, edges).0.cells.len() >= p.cells.len(),
        equitable(refine(p, edges).0, edges),
{
    if p.is_discrete() {
        assert forall|j: int, k: int| 0 <= j < p.cells.len() && 0 <= k < p.cells.len() implies
            #[trigger] same_degree(edges, p.cells[j].members, p.cells[k].members) by {
            assert(p.cells[k].members.len() == 1);
        }
    } else {
        let st = start(p);
        let blk = Seq::new(p.size, |u: int| p.color_of_node[u] as int);
        lemma_node_colors(p);
        assert forall|w: int| 0 <= w < p.size implies block_settled(
            p.color_of_node,
            st.pending,
            blk,
            edges,
            #[trigger] blk[w],
        ) by {
            assert forall|u: int|
                0 <= u < p.size && #[trigger] blk[u] == blk[w] implies st.pending[p.color_of_node[u] as int] by {
                let j = p.cell_of_node[u] as int;
                assert(p.color_of_cell.dom().contains(p.cells[j].color));
            }
        }
        lemma_refine_from_equitable(st, blk, edges);
    }
}

/// Refining a second time changes nothing and gives an empty trace.
pub proof fn lemma_refine_idempotent(p: ColouringView, edges: Seq<(usize, usize)>)
    requires
        p.wf(),
    ensures
        refine(refine(p, edges).0, edges) == (refine(p, edges).0, Seq::<usize>::empty()),
{
    lemma_refine_equitable(p, edges);
    lemma_refine_fixed(refine(p, edges).0, edges);
}

/// Whether nodes that share a colour in `q` share one in `p`: `q` is a
/// refinement of `p`.
pub open spec fn refines(q: ColouringView, p: ColouringView) -> bool {
    &&& q.size == p.size
    &&& forall|u: int, v: int|
        #![trigger q.color_of_node[u], q.color_of_node[v]]
        0 <= u < p.size && 0 <= v < p.size && q.color_of_node[u] == q.color_of_node[v]
            ==> p.color_of_node[u] == p.color_of_node[v]
}

/// Whether the labelling `pi` of the nodes below `n` is equitable: nodes
/// with one label have the same number of edges into the nodes of any label.
pub open spec fn labelling_equitable(pi: Seq<int>, edges: Seq<(usize, usize)>, n: nat) -> bool {
    &&& pi.len() == n
    &&& forall|u: int, v: int, w: int|
        #![trigger pi[u], pi[v], pi[w]]
        0 <= u < n && 0 <= v < n && 0 <= w < n && pi[u] == pi[v] ==> degree_where(
            edges,
            in_block(pi, pi[w]),
            n,
            u as usize,
        ) == degree_where(edges, in_block(pi, pi[w]), n, v as usize)
}

/// Whether nodes with one label in `pi` have one colour in `p`.
pub open spec fn labelling_refines(pi: Seq<int>, p: ColouringView) -> bool {
    &&& pi.len() == p.size
    &&& forall|u: int, v: int|
        #![trigger pi[u], pi[v]]
        0 <= u < p.size && 0 <= v < p.size && pi[u] == pi[v] ==> p.color_of_node[u]
            == p.color_of_node[v]
}

/// Whether nodes with one label have the same degree towards `src`.
pub open spec fn labelling_respects(
    pi: Seq<int>,
    edges: Seq<(usize, usize)>,
    src: Seq<usize>,
) -> bool {
    forall|u: int, v: int|
        #![trigger pi[u], pi[v]]
        0 <= u < pi.len() && 0 <= v < pi.len() && pi[u] == pi[v] ==> degree(
            edges,
            src,
            u as usize,
        ) == degree(edges, src, v as usize)
}

/// The number of nodes below `n` that `sel` picks.
pub open spec fn count_where(sel: spec_fn(int) -> bool, n: nat) -> nat
    decreases n,
{
    if n == 0 {
        0
    } else {
        count_where(sel, (n - 1) as nat) + if sel(n - 1) {
            1nat
        } else {
            0nat
        }
    }
}

/// The nodes that `sel` picks outside the block `x` of `pi`.
pub open spec fn outside_block(sel: spec_fn(int) -> bool, pi: Seq<int>, x: int) -> spec_fn(
    int,
) -> bool {
    |t: int| sel(t) && pi[t] != x
}

/// The nodes of colour `s`.
pub open spec fn with_color(col: Seq<usize>, s: int) -> spec_fn(int) -> bool {
    |t: int| col[t] == s
}

/// A part that misses a node of the whole picks fewer nodes.
proof fn lemma_count_where_less(
    sel: spec_fn(int) -> bool,
    part: spec_fn(int) -> bool,
    n: nat,
    w: int,
)
    requires
        forall|t: int| 0 <= t < n && #[trigger] part(t) ==> sel(t),
        0 <= w < n,
        sel(w),
        !part(w),
    ensures
        count_where(part, n) < count_where(sel, n),
    decreases n,
{
    if w == n - 1 {
        lemma_count_where_le(sel, part, (n - 1) as nat);
    } else {
        lemma_count_where_less(sel, part, (n - 1) as nat, w);
        if part(n - 1) {
            assert(sel(n - 1));
        }
    }
}

/// A part picks at most as many nodes as the whole.
proof fn lemma_count_where_le(sel: spec_fn(int) -> bool, part: spec_fn(int) -> bool, n: nat)
    requires
        forall|t: int| 0 <= t < n && #[trigger] part(t) ==> sel(t),
    ensures
        count_where(part, n) <= count_where(sel, n),
    decreases n,
{
    if n > 0 {
        lemma_count_where_le(sel, part, (n - 1) as nat);
        if part(n - 1) {
            assert(sel(n - 1));
        }
    }
}

/// In an equitable labelling, nodes with one label have the same number of
/// edges into any set of nodes that is made up of whole blocks.
proof fn lemma_equitable_union(
    pi: Seq<int>,
    edges: Seq<(usize, usize)>,
    n: nat,
    sel: spec_fn(int) -> bool,
    u: int,
    v: int,
)
    requires
        labelling_equitable(pi, edges, n),
        forall|a: int, b: int|
            #![trigger pi[a], pi[b]]
            0 <= a < n && 0 <= b < n && pi[a] == pi[b] ==> (sel(a) <==> sel(b)),
        0 <= u < n,
        0 <= v < n,
        pi[u] == pi[v],
    ensures
        degree_where(edges, sel, n, u as usize) == degree_where(edges, sel, n, v as usize),
    decreases count_where(sel, n),
{
    if forall|t: int| 0 <= t < n ==> !#[trigger] sel(t) {
        lemma_degree_where_none(edges, sel, n, u as usize);
        lemma_degree_where_none(edges, sel, n, v as usize);
    } else {
        let w = choose|w: int| 0 <= w < n && #[trigger] sel(w);
        let x = pi[w];
        let block = in_block(pi, x);
        let rest = outside_block(sel, pi, x);
        assert forall|t: int| 0 <= t < n implies (#[trigger] sel(t) <==> block(t) || rest(t)) by {
            if pi[t] == x {
                assert(sel(t) <==> sel(w));
            }
        }
        assert forall|t: int| 0 <= t < n implies !(#[trigger] block(t) && rest(t)) by {}
        lemma_degree_where_parts(edges, sel, block, rest, n, u as usize);
        lemma_degree_where_parts(edges, sel, block, rest, n, v as usize);
        assert(degree_where(edges, in_block(pi, pi[w]), n, u as usize) == degree_where(
            edges,
            in_block(pi, pi[w]),
            n,
            v as usize,
        ));
        assert forall|t: int| 0 <= t < n && #[trigger] rest(t) implies sel(t) by {}
        lemma_count_where_less(sel, rest, n, w);
        assert forall|a: int, b: int|
            #![trigger pi[a], pi[b]]
            0 <= a < n && 0 <= b < n && pi[a] == pi[b] implies (rest(a) <==> rest(b)) by {
            assert(sel(a) <==> sel(b));
        }
        lemma_equitable_union(pi, edges, n, rest, u, v);
    }
}

/// Nodes with one label of an equitable labelling that refines a colouring
/// have the same degree towards any cell of the colouring.
proof fn lemma_labelling_respects_cell(
    pi: Seq<int>,
    edges: Seq<(usize, usize)>,
    p: ColouringView,
    k: int,
)
    requires
        p.wf(),
        0 <= k < p.cells.len(),
        labelling_equitable(pi, edges, p.size),
        labelling_refines(pi, p),
    ensures
        labelling_respects(pi, edges, p.cells[k].members),
{
    let n = p.size;
    let src = p.cells[k].members;
    let s = p.cells[k].color as int;
    let sel = with_color(p.color_of_node, s);
    lemma_members_by_color(p, k);
    assert(ascending(src));
    assert forall|u: int, v: int|
        #![trigger pi[u], pi[v]]
        0 <= u < pi.len() && 0 <= v < pi.len() && pi[u] == pi[v] implies degree(
        edges,
        src,
        u as usize,
    ) == degree(edges, src, v as usize) by {
        assert forall|t: int| 0 <= t < n implies (src.contains(t as usize) <==> #[trigger] sel(
            t,
        )) by {}
        lemma_degree_where_list(edges, src, sel, n, u as usize);
        lemma_degree_where_list(edges, src, sel, n, v as usize);
        assert forall|a: int, b: int|
            #![trigger pi[a], pi[b]]
            0 <= a < n && 0 <= b < n && pi[a] == pi[b] implies (sel(a) <==> sel(b)) by {
            assert(p.color_of_node[a] == p.color_of_node[b]);
        }
        lemma_equitable_union(pi, edges, n, sel, u, v);
    }
}

/// Splitting a cell by degree keeps apart only nodes that a labelling keeps
/// apart, if nodes with one label have the same degree.
#[verifier::rlimit(50)]
proof fn lemma_split_by_degree_coarser(
    st: RefineState,
    edges: Seq<(usize, usize)>,
    src: Seq<usize>,
    k: int,
    pi: Seq<int>,
)
    requires
        state_ok(st),
        0 <= k < st.coloring.cells.len(),
        labelling_refines(pi, st.coloring),
        labelling_respects(pi, edges, src),
    ensures
        labelling_refines(pi, split_by_degree(st, edges, src, k).coloring),
    decreases st.coloring.cells[k].members.len(),
{
    let p = st.coloring;
    let ms = p.cells[k].members;
    if !same_degree(edges, src, ms) {
        let d = least_degree(edges, src, ms);
        let sub = with_degree(edges, src, ms, d);
        let q = p.split(k, sub);
        let high = q.cells[k].color;
        let next = RefineState {
            coloring: q,
            pending: st.pending.update(high as int, true),
            trace: st.trace.push(high),
        };
        lemma_split_step(st, edges, src, k);
        lemma_split_colors(p, k, sub);
        lemma_with_degree(edges, src, ms, d);
        lemma_members_by_color(p, k);
        assert forall|u: int, v: int|
            #![trigger pi[u], pi[v]]
            0 <= u < q.size && 0 <= v < q.size && pi[u] == pi[v] implies q.color_of_node[u]
            == q.color_of_node[v] by {
            assert(p.color_of_node[u] == p.color_of_node[v]);
            assert(degree(edges, src, u as usize) == degree(edges, src, v as usize));
            assert(sub.contains(u as usize) <==> sub.contains(v as usize));
        }
        lemma_split_by_degree_coarser(next, edges, src, k, pi);
    }
}

/// A sweep keeps apart only nodes that a labelling keeps apart, if nodes
/// with one label have the same degree.
proof fn lemma_sweep_coarser(
    st: RefineState,
    edges: Seq<(usize, usize)>,
    src: Seq<usize>,
    c: nat,
    n: nat,
    pi: Seq<int>,
)
    requires
        state_ok(st),
        labelling_refines(pi, st.coloring),
        labelling_respects(pi, edges, src),
    ensures
        labelling_refines(pi, sweep(st, edges, src, c, n).coloring),
    decreases n - c,
{
    if c < n {
        if st.coloring.color_of_cell.dom().contains(c as usize) {
            let k = st.coloring.color_of_cell[c as usize] as int;
            lemma_split_by_degree(st, edges, src, k);
            lemma_split_by_degree_coarser(st, edges, src, k, pi);
            lemma_sweep_coarser(split_by_degree(st, edges, src, k), edges, src, c + 1, n, pi);
        } else {
            lemma_sweep_coarser(st, edges, src, c + 1, n, pi);
        }
    }
}

/// Refinement keeps apart only nodes that an equitable labelling keeps
/// apart, and it only ever splits cells.
proof fn lemma_refine_from_coarsest(st: RefineState, edges: Seq<(usize, usize)>, pi: Seq<int>)
    requires
        state_ok(st),
        labelling_equitable(pi, edges, st.coloring.size),
        labelling_refines(pi, st.coloring),
    ensures
        labelling_refines(pi, refine_from(st, edges).coloring),
    decreases st.coloring.size - st.coloring.cells.len(), count_pending(st.pending),
{
    if first_pending(st.pending, 0) < st.pending.len() {
        let next = sweep(popped(st), edges, source(st), 0, st.coloring.size);
        lemma_first_pending(st.pending, 0);
        lemma_count_pending_clear(st.pending, first_pending(st.pending, 0));
        lemma_popped_ok(st);
        lemma_sweep(popped(st), edges, source(st), 0, st.coloring.size);
        let k = st.coloring.color_of_cell[first_pending(st.pending, 0) as usize] as int;
        lemma_labelling_respects_cell(pi, edges, st.coloring, k);
        lemma_sweep_coarser(popped(st), edges, source(st), 0, st.coloring.size, pi);
        lemma_refine_from_coarsest(next, edges, pi);
    }
}

/// Refinement from a state on only splits cells.
proof fn lemma_refine_from_refines(st: RefineState, edges: Seq<(usize, usize)>)
    requires
        state_ok(st),
    ensures
        refines(refine_from(st, edges).coloring, st.coloring),
    decreases st.coloring.size - st.coloring.cells.len(), count_pending(st.pending),
{
    if first_pending(st.pending, 0) < st.pending.len() {
        let next = sweep(popped(st), edges, source(st), 0, st.coloring.size);
        lemma_first_pending(st.pending, 0);
        lemma_count_pending_clear(st.pending, first_pending(st.pending, 0));
        lemma_popped_ok(st);
        lemma_sweep(popped(st), edges, source(st), 0, st.coloring.size);
        lemma_sweep_colors(popped(st), edges, source(st), 0, st.coloring.size);
        lemma_refine_from_refines(next, edges);
        let last = refine_from(next, edges).coloring;
        assert forall|u: int, v: int|
            #![trigger last.color_of_node[u], last.color_of_node[v]]
            0 <= u < st.coloring.size && 0 <= v < st.coloring.size && last.color_of_node[u]
                == last.color_of_node[v] implies st.coloring.color_of_node[u]
            == st.coloring.color_of_node[v] by {
            assert(next.coloring.color_of_node[u] == next.coloring.color_of_node[v]);
        }
    }
}

/// Refinement only splits cells: nodes that share a colour afterwards
/// shared one before.
pub proof fn lemma_refine_refines(p: ColouringView, edges: Seq<(usize, usize)>)
    requires
        p.wf(),
    ensures
        refines(refine(p, edges).0, p),
{
    if !p.is_discrete() {
        lemma_start_ok(p);
        lemma_refine_from_refines(start(p), edges);
    }
}

/// Refinement gives the coarsest equitable refinement: it keeps apart only
/// nodes that every equitable labelling of the nodes keeps apart that
/// refines the colouring refined.
pub proof fn lemma_refine_coarsest(p: ColouringView, edges: Seq<(usize, usize)>, pi: Seq<int>)
    requires
        p.wf(),
        labelling_equitable(pi, edges, p.size),
        labelling_refines(pi, p),
    ensures
        labelling_refines(pi, refine(p, edges).0),
{
    if !p.is_discrete() {
        lemma_start_ok(p);
        lemma_refine_from_coarsest(start(p), edges, pi);
    }
}

} // verus!
