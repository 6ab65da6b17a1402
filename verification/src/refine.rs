//! Refinement of a colouring against a graph.

use vstd::prelude::*;
use crate::coloring::{filled, Colouring};
use crate::graph::{
    edge_count, graph_edges, graph_order, lemma_occurrences_prefix, neighbors, occurrences,
    UnGraph,
};
use crate::equitable::{equitable, lemma_refine_equitable, lemma_refine_refines, refines};
use crate::partition::{ascending, ColouringView};
use crate::refinement::{
    count_pending, degree, first_pending, least_degree, lemma_count_pending_clear,
    lemma_degree_bound, lemma_first_pending, lemma_popped_ok, lemma_split_by_degree,
    lemma_split_step, lemma_sweep, popped, refine, refine_from, same_degree, source,
    split_by_degree, start, state_ok, sweep, with_degree, RefineState,
};

verus! {

/// The refinement state made of its three parts.
spec fn state_of(p: ColouringView, pending: Seq<bool>, trace: Seq<usize>) -> RefineState {
    RefineState { coloring: p, pending, trace }
}

/// Whether `deg` holds, for every node, its degree towards `src`.
spec fn holds_degrees(
    deg: Seq<usize>,
    edges: Seq<(usize, usize)>,
    src: Seq<usize>,
) -> bool {
    forall|v: int| 0 <= v < deg.len() ==> #[trigger] deg[v] == degree(edges, src, v as usize)
}

/// For every node of `g`, the number of edges that join it to a node of
/// `src`.
fn count_links(g: &UnGraph, src: &Vec<usize>, n: usize) -> (deg: Vec<usize>)
    requires
        n == graph_order(*g),
        ascending(src@),
        forall|i: int| 0 <= i < src.len() ==> #[trigger] src[i] < n,
    ensures
        deg.len() == n,
        holds_degrees(deg@, graph_edges(*g), src@),
{
    let ghost edges = graph_edges(*g);
    let m = edge_count(g);
    let mut deg = filled(n, 0);
    let mut i: usize = 0;
    while i < src.len()
        invariant
            i <= src.len(),
            deg.len() == n,
            n == graph_order(*g),
            edges == graph_edges(*g),
            edges.len() <= usize::MAX,
            ascending(src@),
            forall|a: int| 0 <= a < src.len() ==> #[trigger] src[a] < n,
            holds_degrees(deg@, edges, src@.take(i as int)),
        decreases src.len() - i,
    {
        let u = src[i];
        let nb = neighbors(g, u);
        let ghost front = src@.take(i as int);
        let ghost upto = src@.take(i + 1);
        proof {
            assert(upto.drop_last() =~= front);
            assert(upto.last() == u);
        }
        let mut j: usize = 0;
        while j < nb.len()
            invariant
                j <= nb.len(),
                deg.len() == n,
                edges.len() <= usize::MAX,
                ascending(upto),
                upto.len() > 0,
                upto.drop_last() == front,
                upto.last() == u,
                forall|a: int| 0 <= a < nb@.len() ==> (#[trigger] nb@[a]) < n,
                forall|v: usize| occurrences(nb@, v) == crate::graph::links(edges, u, v),
                forall|v: int|
                    0 <= v < n ==> #[trigger] deg[v] == degree(edges, front, v as usize)
                        + occurrences(nb@.take(j as int), v as usize),
            decreases nb.len() - j,
        {
            let v = nb[j];
            proof {
                assert(nb@.take(j + 1).drop_last() =~= nb@.take(j as int));
                assert(nb@.take(j + 1).last() == v);
                lemma_occurrences_prefix(nb@, j + 1, v);
                lemma_degree_bound(edges, upto, v);
            }
            deg.set(v, deg[v] + 1);
            j += 1;
        }
        proof {
            assert(nb@.take(nb.len() as int) =~= nb@);
        }
        i += 1;
    }
    proof {
        assert(src@.take(src.len() as int) =~= src@);
    }
    deg
}

/// The least degree among `ms`, and whether all of `ms` have it.
fn least_and_same(
    ms: &Vec<usize>,
    deg: &Vec<usize>,
    Ghost(edges): Ghost<Seq<(usize, usize)>>,
    Ghost(src): Ghost<Seq<usize>>,
) -> (r: (usize, bool))
    requires
        ms.len() > 0,
        forall|i: int| 0 <= i < ms.len() ==> #[trigger] ms[i] < deg.len(),
        holds_degrees(deg@, edges, src),
    ensures
        r.0 == least_degree(edges, src, ms@),
        r.1 == same_degree(edges, src, ms@),
{
    let first = deg[ms[0]];
    let mut lo = first;
    let mut same = true;
    let mut i: usize = 1;
    proof {
        assert(ms@.take(1).len() == 1);
        assert(ms@.take(1)[0] == ms@[0]);
    }
    while i < ms.len()
        invariant
            1 <= i <= ms.len(),
            forall|a: int| 0 <= a < ms.len() ==> #[trigger] ms[a] < deg.len(),
            holds_degrees(deg@, edges, src),
            first == degree(edges, src, ms@[0]),
            lo == least_degree(edges, src, ms@.take(i as int)),
            same == (forall|a: int| 0 <= a < i ==> degree(edges, src, #[trigger] ms@[a]) == first),
        decreases ms.len() - i,
    {
        let d = deg[ms[i]];
        proof {
            assert(ms@.take(i + 1).drop_last() =~= ms@.take(i as int));
            assert(ms@.take(i + 1).last() == ms@[i as int]);
        }
        if d < lo {
            lo = d;
        }
        if d != first {
            same = false;
        }
        i += 1;
    }
    proof {
        assert(ms@.take(ms.len() as int) =~= ms@);
        if same {
            assert(same_degree(edges, src, ms@));
        } else {
            let a = choose|a: int| 0 <= a < ms.len() && degree(edges, src, #[trigger] ms@[a]) != first;
            assert(degree(edges, src, ms@[a]) != degree(edges, src, ms@[0]));
        }
    }
    (lo, same)
}

/// The nodes of `ms` whose degree is `d`, in their order.
fn pick_with_degree(
    ms: &Vec<usize>,
    deg: &Vec<usize>,
    d: usize,
    Ghost(edges): Ghost<Seq<(usize, usize)>>,
    Ghost(src): Ghost<Seq<usize>>,
) -> (sub: Vec<usize>)
    requires
        forall|i: int| 0 <= i < ms.len() ==> #[trigger] ms[i] < deg.len(),
        holds_degrees(deg@, edges, src),
    ensures
        sub@ == with_degree(edges, src, ms@, d as nat),
{
    let mut sub: Vec<usize> = Vec::new();
    let mut i: usize = 0;
    while i < ms.len()
        invariant
            i <= ms.len(),
            forall|a: int| 0 <= a < ms.len() ==> #[trigger] ms[a] < deg.len(),
            holds_degrees(deg@, edges, src),
            sub@ == with_degree(edges, src, ms@.take(i as int), d as nat),
        decreases ms.len() - i,
    {
        proof {
            assert(ms@.take(i + 1).drop_last() =~= ms@.take(i as int));
            assert(ms@.take(i + 1).last() == ms@[i as int]);
        }
        if deg[ms[i]] == d {
            sub.push(ms[i]);
        }
        i += 1;
    }
    proof {
        assert(ms@.take(ms.len() as int) =~= ms@);
    }
    sub
}

/// The first position at which `w` is set, or its length.
fn first_set(w: &Vec<bool>) -> (i: usize)
    ensures
        i == first_pending(w@, 0),
{
    let mut i: usize = 0;
    while i < w.len() && !w[i]
        invariant
            i <= w.len(),
            first_pending(w@, 0) == first_pending(w@, i as int),
        decreases w.len() - i,
    {
        i += 1;
    }
    i
}

impl Colouring {
    /// Refines the colouring against `g` until it is equitable, that is
    /// until no cell has members that differ in the number of their edges
    /// into some cell, and returns the trace: the colours that the splits
    /// made, in the order of the splits. Cells are only split, and no
    /// further than every equitable refinement splits them.
    ///
    /// The colours are worked off smallest first and the cells are split in
    /// ascending order of colour, so that the trace does not depend on how
    /// the nodes are numbered.
    pub fn refine(&mut self, g: &UnGraph) -> (trace: Vec<usize>)
        requires
            old(self).wf(),
            old(self)@.size == graph_order(*g),
        ensures
            final(self).wf(),
            final(self)@ == refine(old(self)@, graph_edges(*g)).0,
            trace@ == refine(old(self)@, graph_edges(*g)).1,
            final(self)@.size == old(self)@.size,
            final(self)@.cells.len() >= old(self)@.cells.len(),
            equitable(final(self)@, graph_edges(*g)),
            refines(final(self)@, old(self)@),
    {
        let mut trace: Vec<usize> = Vec::new();
        proof {
            lemma_refine_equitable(self@, graph_edges(*g));
            lemma_refine_refines(self@, graph_edges(*g));
        }
        if self.is_discrete() {
            return trace;
        }
        let ghost edges = graph_edges(*g);
        let ghost init = start(self@);
        let n = self.get_size();

        let mut pending: Vec<bool> = Vec::new();
        let mut c: usize = 0;
        while c < n
            invariant
                c <= n,
                n == self@.size,
                pending@ == Seq::new(
                    c as nat,
                    |x: int| self@.color_of_cell.dom().contains(x as usize),
                ),
            decreases n - c,
        {
            let used = self.get_color_cell(c).is_some();
            pending.push(used);
            proof {
                assert(pending@ =~= Seq::new(
                    (c + 1) as nat,
                    |x: int| self@.color_of_cell.dom().contains(x as usize),
                ));
            }
            c += 1;
        }
        proof {
            assert(state_of(self@, pending@, trace@) == init);
            assert(state_ok(init));
        }

        let mut s = first_set(&pending);
        while s < n
            invariant
                self.wf(),
                n == self@.size,
                n == graph_order(*g),
                edges == graph_edges(*g),
                state_ok(state_of(self@, pending@, trace@)),
                refine_from(state_of(self@, pending@, trace@), edges) == refine_from(init, edges),
                s == first_pending(pending@, 0),
                self@.cells.len() >= init.coloring.cells.len(),
            decreases n - self@.cells.len(), count_pending(pending@),
        {
            let ghost cur = state_of(self@, pending@, trace@);
            proof {
                lemma_first_pending(pending@, 0);
                lemma_popped_ok(cur);
                lemma_count_pending_clear(pending@, s as int);
            }
            pending.set(s, false);
            let k = self.get_color_cell(s).unwrap();
            let src = self.get_cell_members(k);
            proof {
                assert(state_of(self@, pending@, trace@) == popped(cur));
                assert(src@ == source(cur));
                assert(ascending(self@.cells[k as int].members));
                assert forall|i: int| 0 <= i < src.len() implies #[trigger] src[i] < n by {
                    assert(self@.cells[k as int].members[i] < self@.size);
                }
                lemma_sweep(popped(cur), edges, src@, 0, n as nat);
            }
            let deg = count_links(g, &src, n);

            let mut c: usize = 0;
            while c < n
                invariant
                    c <= n,
                    self.wf(),
                    n == self@.size,
                    deg.len() == n,
                    holds_degrees(deg@, edges, src@),
                    state_ok(state_of(self@, pending@, trace@)),
                    sweep(state_of(self@, pending@, trace@), edges, src@, c as nat, n as nat)
                        == sweep(popped(cur), edges, src@, 0, n as nat),
                decreases n - c,
            {
                match self.get_color_cell(c) {
                    Some(k2) => {
                        let ghost entry = state_of(self@, pending@, trace@);
                        proof {
                            assert(self@.color_of_cell[c] < self@.cells.len());
                            assert(self@.cells[k2 as int].members.len() > 0);
                            assert forall|i: int|
                                0 <= i < self@.cells[k2 as int].members.len() implies (
                            #[trigger] self@.cells[k2 as int].members[i]) < n by {}
                        }
                        let mut scan = least_and_same(
                            self.cell_members(k2),
                            &deg,
                            Ghost(edges),
                            Ghost(src@),
                        );
                        while !scan.1
                            invariant
                                self.wf(),
                                n == self@.size,
                                deg.len() == n,
                                k2 < self@.cells.len(),
                                holds_degrees(deg@, edges, src@),
                                state_ok(state_of(self@, pending@, trace@)),
                                scan.0 == least_degree(
                                    edges,
                                    src@,
                                    self@.cells[k2 as int].members,
                                ),
                                scan.1 == same_degree(edges, src@, self@.cells[k2 as int].members),
                                split_by_degree(
                                    state_of(self@, pending@, trace@),
                                    edges,
                                    src@,
                                    k2 as int,
                                ) == split_by_degree(entry, edges, src@, k2 as int),
                            decreases self@.cells[k2 as int].members.len(),
                        {
                            let ghost before = state_of(self@, pending@, trace@);
                            proof {
                                lemma_split_step(before, edges, src@, k2 as int);
                            }
                            let sub = pick_with_degree(
                                self.cell_members(k2),
                                &deg,
                                scan.0,
                                Ghost(edges),
                                Ghost(src@),
                            );
                            let color = self.split_cell(k2, sub);
                            pending.set(color, true);
                            trace.push(color);
                            proof {
                                assert(self@.cells[k2 as int].members.len() > 0);
                                assert forall|i: int|
                                    0 <= i < self@.cells[k2 as int].members.len() implies (
                                #[trigger] self@.cells[k2 as int].members[i]) < n by {}
                            }
                            scan =
                            least_and_same(self.cell_members(k2), &deg, Ghost(edges), Ghost(src@));
                        }
                        proof {
                            lemma_split_by_degree(entry, edges, src@, k2 as int);
                        }
                    },
                    None => {},
                }
                c += 1;
            }
            proof {
                assert(state_of(self@, pending@, trace@) == sweep(
                    popped(cur),
                    edges,
                    src@,
                    0,
                    n as nat,
                ));
            }
            s = first_set(&pending);
        }
        proof {
            lemma_first_pending(pending@, 0);
        }
        trace
    }
}

} // verus!
