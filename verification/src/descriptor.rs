//! The descriptor of a graph: its adjacency written out as one integer
//! sequence, and the graph that a colouring relabels another into.
//!
//! The descriptor of a graph on `n` nodes starts with `n`. Then, for every
//! node `i` but the last, come the neighbours above `i` in ascending order,
//! each written as its distance from the one before it (from `i` for the
//! first), and after them `n` again as a separator. A neighbour joined to
//! `i` by several edges is written once for each edge, so all but the first
//! time as a zero. Loops are not written.

use vstd::prelude::*;
use crate::coloring::{filled, Colouring};
use crate::graph::{
    add_edge, add_node, edge_count, edge_list, empty_graph, graph_edges, graph_order,
    lemma_occurrences_bound, links, neighbors, node_count, occurrences, UnGraph,
};
use crate::partition::lemma_node_colors;

verus! {

/// A neighbour at distance `d` that is joined by `m` edges: `d`, then a zero
/// for each further edge.
pub open spec fn gap_run(m: nat, d: usize) -> Seq<usize> {
    if m == 0 {
        Seq::empty()
    } else {
        seq![d] + Seq::new((m - 1) as nat, |i: int| 0usize)
    }
}

/// The last neighbour of `i` in `i + 1 .. j`, or `i` if there is none.
pub open spec fn last_link(edges: Seq<(usize, usize)>, i: nat, j: nat) -> nat
    decreases j,
{
    if j <= i + 1 {
        i
    } else if links(edges, i as usize, (j - 1) as usize) > 0 {
        (j - 1) as nat
    } else {
        last_link(edges, i, (j - 1) as nat)
    }
}

/// What the descriptor holds for node `i` about its neighbours in
/// `i + 1 .. j`.
pub open spec fn row_upto(edges: Seq<(usize, usize)>, i: nat, j: nat) -> Seq<usize>
    decreases j,
{
    if j <= i + 1 {
        Seq::empty()
    } else {
        row_upto(edges, i, (j - 1) as nat) + gap_run(
            links(edges, i as usize, (j - 1) as usize),
            (j - 1 - last_link(edges, i, (j - 1) as nat)) as usize,
        )
    }
}

/// What the descriptor holds for the nodes `0 .. i`: the row of each, closed
/// by the separator `n`.
pub open spec fn rows_upto(edges: Seq<(usize, usize)>, n: nat, i: nat) -> Seq<usize>
    decreases i,
{
    if i == 0 {
        Seq::empty()
    } else {
        rows_upto(edges, n, (i - 1) as nat) + row_upto(edges, (i - 1) as nat, n).push(n as usize)
    }
}

/// The descriptor of the graph on `n` nodes with the edges `edges`.
pub open spec fn descriptor(n: nat, edges: Seq<(usize, usize)>) -> Seq<usize> {
    seq![n as usize] + rows_upto(
        edges,
        n,
        if n == 0 {
            0
        } else {
            (n - 1) as nat
        },
    )
}

/// The edges with every endpoint replaced by its value in `color_of_node`.
pub open spec fn relabel(edges: Seq<(usize, usize)>, color_of_node: Seq<usize>) -> Seq<
    (usize, usize),
> {
    Seq::new(
        edges.len(),
        |i: int| (color_of_node[edges[i].0 as int], color_of_node[edges[i].1 as int]),
    )
}

/// The descriptor of the graph `g`.
pub fn compute_descriptor(g: &UnGraph) -> (canonical: Vec<usize>)
    ensures
        canonical@ == descriptor(graph_order(*g), graph_edges(*g)),
{
    let ghost edges = graph_edges(*g);
    let n = node_count(g);
    let mut canonical: Vec<usize> = Vec::new();
    canonical.push(n);
    if n == 0 {
        proof {
            assert(canonical@ =~= descriptor(0, edges));
        }
        return canonical;
    }
    let mut count = filled(n, 0);
    let mut i: usize = 0;
    proof {
        assert(canonical@ =~= seq![n] + rows_upto(edges, n as nat, 0));
    }
    while i < n - 1
        invariant
            i <= n - 1,
            n == graph_order(*g),
            edges == graph_edges(*g),
            count.len() == n,
            forall|v: int| 0 <= v < n ==> #[trigger] count[v] == 0,
            canonical@ == seq![n] + rows_upto(edges, n as nat, i as nat),
        decreases n - 1 - i,
    {
        let nb = neighbors(g, i);
        let mut a: usize = 0;
        while a < nb.len()
            invariant
                a <= nb.len(),
                count.len() == n,
                forall|x: int| 0 <= x < nb@.len() ==> (#[trigger] nb@[x]) < n,
                forall|v: int|
                    0 <= v < n ==> #[trigger] count[v] == if v > i {
                        occurrences(nb@.take(a as int), v as usize)
                    } else {
                        0
                    },
            decreases nb.len() - a,
        {
            let v = nb[a];
            proof {
                assert(nb@.take(a + 1).drop_last() =~= nb@.take(a as int));
                assert(nb@.take(a + 1).last() == v);
                lemma_occurrences_bound(nb@.take(a as int), v);
            }
            if v > i {
                count.set(v, count[v] + 1);
            }
            a += 1;
        }
        proof {
            assert(nb@.take(nb.len() as int) =~= nb@);
        }
        let ghost base = canonical@;
        let mut prev = i;
        let mut j: usize = i + 1;
        while j < n
            invariant
                i < j <= n,
                count.len() == n,
                prev == last_link(edges, i as nat, j as nat),
                i <= prev < j,
                forall|v: int|
                    0 <= v < n ==> #[trigger] count[v] == if v >= j {
                        links(edges, i, v as usize)
                    } else {
                        0
                    },
                canonical@ == base + row_upto(edges, i as nat, j as nat),
            decreases n - j,
        {
            let m = count[j];
            let ghost before = canonical@;
            if m > 0 {
                canonical.push(j - prev);
                let mut t: usize = 1;
                while t < m
                    invariant
                        1 <= t <= m,
                        canonical@ == before + gap_run(t as nat, (j - prev) as usize),
                    decreases m - t,
                {
                    canonical.push(0);
                    proof {
                        assert(gap_run((t + 1) as nat, (j - prev) as usize) =~= gap_run(
                            t as nat,
                            (j - prev) as usize,
                        ).push(0));
                    }
                    t += 1;
                }
                prev = j;
                count.set(j, 0);
            } else {
                proof {
                    assert(canonical@ =~= before + gap_run(0, (j - prev) as usize));
                }
            }
            proof {
                assert(canonical@ =~= base + row_upto(edges, i as nat, (j + 1) as nat));
            }
            j += 1;
        }
        canonical.push(n);
        proof {
            assert(canonical@ =~= seq![n] + rows_upto(edges, n as nat, (i + 1) as nat));
        }
        i += 1;
    }
    canonical
}

impl Colouring {
    /// The graph that has every node of `g` renamed to its colour: as many
    /// nodes as `g`, and for each edge of `g`, in their order, the edge
    /// between the colours of its endpoints.
    pub fn compute_graph_from_discrete(&self, g: &UnGraph) -> (h: UnGraph)
        requires
            self.wf(),
            self@.size == graph_order(*g),
        ensures
            graph_order(h) == graph_order(*g),
            graph_edges(h) == relabel(graph_edges(*g), self@.color_of_node),
    {
        let n = node_count(g);
        let m = edge_count(g);
        let edges = edge_list(g);
        let mut h = empty_graph();
        let mut i: usize = 0;
        while i < n
            invariant
                i <= n,
                n <= u32::MAX,
                graph_order(h) == i,
                graph_edges(h) == Seq::<(usize, usize)>::empty(),
            decreases n - i,
        {
            add_node(&mut h, i);
            i += 1;
        }
        proof {
            lemma_node_colors(self@);
        }
        let mut e: usize = 0;
        while e < edges.len()
            invariant
                e <= edges.len(),
                edges.len() <= u32::MAX,
                edges@ == graph_edges(*g),
                n == self@.size,
                forall|x: int|
                    0 <= x < edges@.len() ==> (#[trigger] edges@[x]).0 < n && edges@[x].1 < n,
                forall|v: int| 0 <= v < n ==> (#[trigger] self@.color_of_node[v]) < n,
                self@.color_of_node.len() == n,
                graph_order(h) == n,
                graph_edges(h) == relabel(edges@, self@.color_of_node).take(e as int),
            decreases edges.len() - e,
        {
            let (u, v) = edges[e];
            proof {
                assert(edges@[e as int].0 < n);
            }
            let a = self.get_node_color(u);
            let b = self.get_node_color(v);
            add_edge(&mut h, a, b);
            proof {
                let all = relabel(edges@, self@.color_of_node);
                assert(all.take(e + 1) =~= all.take(e as int).push((a, b)));
            }
            e += 1;
        }
        proof {
            let all = relabel(edges@, self@.color_of_node);
            assert(all.take(edges.len() as int) =~= all);
        }
        h
    }
}

} // verus!

verus! {

/// The sum of the entries of `row`.
pub open spec fn row_sum(row: Seq<usize>) -> nat
    decreases row.len(),
{
    if row.len() == 0 {
        0
    } else {
        row_sum(row.drop_last()) + row.last() as nat
    }
}

/// How many entries of `row` stand for the node `x`, when the entries are
/// read as distances starting from `start`.
pub open spec fn tally(row: Seq<usize>, start: nat, x: nat) -> nat
    decreases row.len(),
{
    if row.len() == 0 {
        0
    } else {
        tally(row.drop_last(), start, x) + if start + row_sum(row) == x {
            1nat
        } else {
            0nat
        }
    }
}

/// The entries of two rows in a row add up to the sum of both.
proof fn lemma_row_sum_concat(a: Seq<usize>, b: Seq<usize>)
    ensures
        row_sum(a + b) == row_sum(a) + row_sum(b),
    decreases b.len(),
{
    if b.len() == 0 {
        assert(a + b =~= a);
    } else {
        lemma_row_sum_concat(a, b.drop_last());
        assert((a + b).drop_last() =~= a + b.drop_last());
    }
}

/// A second row is read on from where the first one ends.
proof fn lemma_tally_concat(a: Seq<usize>, b: Seq<usize>, start: nat, x: nat)
    ensures
        tally(a + b, start, x) == tally(a, start, x) + tally(b, start + row_sum(a), x),
    decreases b.len(),
{
    if b.len() == 0 {
        assert(a + b =~= a);
    } else {
        lemma_tally_concat(a, b.drop_last(), start, x);
        assert((a + b).drop_last() =~= a + b.drop_last());
        lemma_row_sum_concat(a, b);
    }
}

/// What a run holds: as many entries as edges, the distance and then zeros, all
/// standing for the one node at that distance.
proof fn lemma_gap_run(m: nat, d: usize, start: nat, x: nat)
    ensures
        gap_run(m, d).len() == m,
        row_sum(gap_run(m, d)) == if m == 0 {
            0
        } else {
            d as nat
        },
        tally(gap_run(m, d), start, x) == if start + d == x {
            m
        } else {
            0
        },
        forall|t: int| 0 <= t < gap_run(m, d).len() ==> #[trigger] gap_run(m, d)[t] <= d,
    decreases m,
{
    if m == 1 {
        let r = gap_run(1, d);
        assert(r.drop_last() =~= Seq::<usize>::empty());
        assert(r.last() == d);
        assert(row_sum(r.drop_last()) == 0);
        assert(tally(r.drop_last(), start, x) == 0);
    } else if m > 1 {
        lemma_gap_run((m - 1) as nat, d, start, x);
        let r = gap_run(m, d);
        assert(r.drop_last() =~= gap_run((m - 1) as nat, d));
        assert(r.last() == 0);
    }
}

/// The row of node `i` up to `j`: its entries add up to the distance of the
/// last neighbour, each is less than `j - i`, there is one for every edge to
/// a node in between, and those that stand for the node `x` are as many as
/// the edges that join `i` and `x`.
pub proof fn lemma_row(edges: Seq<(usize, usize)>, i: nat, j: nat, x: nat)
    requires
        i < j <= usize::MAX,
    ensures
        i <= last_link(edges, i, j) < j,
        row_sum(row_upto(edges, i, j)) == last_link(edges, i, j) - i,
        tally(row_upto(edges, i, j), i, x) == if i < x < j {
            links(edges, i as usize, x as usize)
        } else {
            0
        },
        forall|t: int|
            0 <= t < row_upto(edges, i, j).len() ==> #[trigger] row_upto(edges, i, j)[t] < j - i,
    decreases j,
{
    if j > i + 1 {
        let prev = (j - 1) as nat;
        lemma_row(edges, i, prev, x);
        let m = links(edges, i as usize, prev as usize);
        let d = (prev - last_link(edges, i, prev)) as usize;
        let front = row_upto(edges, i, prev);
        let run = gap_run(m, d);
        lemma_gap_run(m, d, i + row_sum(front), x);
        lemma_row_sum_concat(front, run);
        lemma_tally_concat(front, run, i, x);
        assert forall|t: int| 0 <= t < (front + run).len() implies #[trigger] (front + run)[t] < j
            - i by {
            if t < front.len() {
                assert((front + run)[t] == front[t]);
            } else {
                assert((front + run)[t] == run[t - front.len()]);
            }
        }
    }
}

/// Two sequences that end in `n` after a stretch without `n`, each behind a
/// part that ends in `n`, are equal only if their parts are.
proof fn lemma_split_at_separator(
    x1: Seq<usize>,
    a1: Seq<usize>,
    x2: Seq<usize>,
    a2: Seq<usize>,
    n: usize,
)
    requires
        x1.len() > 0,
        x2.len() > 0,
        x1.last() == n,
        x2.last() == n,
        forall|t: int| 0 <= t < a1.len() ==> #[trigger] a1[t] != n,
        forall|t: int| 0 <= t < a2.len() ==> #[trigger] a2[t] != n,
        x1 + a1.push(n) == x2 + a2.push(n),
    ensures
        x1 == x2,
        a1 == a2,
{
    let w1 = x1 + a1.push(n);
    let w2 = x2 + a2.push(n);
    assert(w1.len() == x1.len() + a1.len() + 1);
    assert(w2.len() == x2.len() + a2.len() + 1);
    if a1.len() < a2.len() {
        let t = x1.len() - 1;
        assert(w1[t] == x1[t]);
        assert(w2[t] == a2[t - x2.len()]);
    }
    if a2.len() < a1.len() {
        let t = x2.len() - 1;
        assert(w2[t] == x2[t]);
        assert(w1[t] == a1[t - x1.len()]);
    }
    assert(x1 =~= x2) by {
        assert forall|t: int| 0 <= t < x1.len() implies x1[t] == x2[t] by {
            assert(w1[t] == x1[t]);
            assert(w2[t] == x2[t]);
        }
    }
    assert(a1 =~= a2) by {
        assert forall|t: int| 0 <= t < a1.len() implies a1[t] == a2[t] by {
            assert(w1[x1.len() + t] == a1.push(n)[t]);
            assert(w2[x2.len() + t] == a2.push(n)[t]);
        }
    }
}

/// The rows end with the separator, and so does the descriptor before them.
proof fn lemma_rows_end(edges: Seq<(usize, usize)>, n: nat, i: nat)
    requires
        n <= usize::MAX,
    ensures
        (seq![n as usize] + rows_upto(edges, n, i)).len() > 0,
        (seq![n as usize] + rows_upto(edges, n, i)).last() == n,
    decreases i,
{
    if i > 0 {
        let w = seq![n as usize] + rows_upto(edges, n, i);
        let tail = row_upto(edges, (i - 1) as nat, n).push(n as usize);
        assert(w =~= (seq![n as usize] + rows_upto(edges, n, (i - 1) as nat)) + tail);
    }
}

/// Graphs with the same rows up to node `i` have the same row for every node
/// below `i`.
proof fn lemma_rows_injective(
    e1: Seq<(usize, usize)>,
    e2: Seq<(usize, usize)>,
    n: nat,
    i: nat,
)
    requires
        n <= usize::MAX,
        i < n,
        seq![n as usize] + rows_upto(e1, n, i) == seq![n as usize] + rows_upto(e2, n, i),
    ensures
        forall|a: nat| a < i ==> row_upto(e1, a, n) == row_upto(e2, a, n),
    decreases i,
{
    if i > 0 {
        let a = (i - 1) as nat;
        let x1 = seq![n as usize] + rows_upto(e1, n, a);
        let x2 = seq![n as usize] + rows_upto(e2, n, a);
        let r1 = row_upto(e1, a, n);
        let r2 = row_upto(e2, a, n);
        lemma_rows_end(e1, n, a);
        lemma_rows_end(e2, n, a);
        lemma_row(e1, a, n, 0);
        lemma_row(e2, a, n, 0);
        assert(seq![n as usize] + rows_upto(e1, n, i) =~= x1 + r1.push(n as usize));
        assert(seq![n as usize] + rows_upto(e2, n, i) =~= x2 + r2.push(n as usize));
        lemma_split_at_separator(x1, r1, x2, r2, n as usize);
        lemma_rows_injective(e1, e2, n, a);
    }
}

/// Graphs on `n` nodes with the same descriptor have the same number of
/// edges between any two different nodes: the descriptor tells the graph,
/// but for its loops.
pub proof fn lemma_descriptor_injective(
    n: nat,
    e1: Seq<(usize, usize)>,
    e2: Seq<(usize, usize)>,
    u: usize,
    v: usize,
)
    requires
        n <= usize::MAX,
        descriptor(n, e1) == descriptor(n, e2),
        u < n,
        v < n,
        u != v,
    ensures
        links(e1, u, v) == links(e2, u, v),
{
    let (i, x) = if u < v {
        (u, v)
    } else {
        (v, u)
    };
    lemma_rows_injective(e1, e2, n, (n - 1) as nat);
    assert(row_upto(e1, i as nat, n) == row_upto(e2, i as nat, n));
    lemma_row(e1, i as nat, n, x as nat);
    lemma_row(e2, i as nat, n, x as nat);
    crate::graph::lemma_links_symmetric(e1, u, v);
    crate::graph::lemma_links_symmetric(e2, u, v);
}

} // verus!
