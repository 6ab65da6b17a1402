//! The undirected graphs the library works on, and what it reads of them.
//!
//! Graphs are `petgraph` graphs with `usize` node weights, unit edge weights
//! and the default 32-bit indices. The verifier sees such a graph through two
//! names only: the number of its nodes and the list of its edges, each edge
//! a pair of node indices in the order the edges were added.

use vstd::prelude::*;
use petgraph::visit::EdgeRef;

verus! {

/// `petgraph::graph::Graph`, taken as it is: nothing is known of a graph
/// but what the functions below say of it.
#[verifier::external_type_specification]
#[verifier::external_body]
#[verifier::reject_recursive_types(N)]
#[verifier::reject_recursive_types(E)]
#[verifier::reject_recursive_types(Ty)]
#[verifier::reject_recursive_types(Ix)]
pub struct ExGraph<N, E, Ty, Ix>(petgraph::graph::Graph<N, E, Ty, Ix>);

/// `petgraph::Undirected`, the marker of graphs with undirected edges.
#[verifier::external_type_specification]
#[verifier::external_body]
pub struct ExUndirected(petgraph::Undirected);

/// The graphs this library takes.
pub type UnGraph = petgraph::graph::Graph<usize, (), petgraph::Undirected, u32>;

/// The number of nodes of `g`; its nodes are `0 .. graph_order(g)`.
pub uninterp spec fn graph_order(g: UnGraph) -> nat;

/// The edges of `g` in index order, each as (source, target).
pub uninterp spec fn graph_edges(g: UnGraph) -> Seq<(usize, usize)>;

/// Whether the edge `e` joins the nodes `u` and `v`, in either direction.
pub open spec fn joins(e: (usize, usize), u: usize, v: usize) -> bool {
    (e.0 == u && e.1 == v) || (e.0 == v && e.1 == u)
}

/// The number of edges in `edges` that join `u` and `v`.
pub open spec fn links(edges: Seq<(usize, usize)>, u: usize, v: usize) -> nat
    decreases edges.len(),
{
    if edges.len() == 0 {
        0
    } else {
        links(edges.drop_last(), u, v) + if joins(edges.last(), u, v) { 1nat } else { 0nat }
    }
}

/// How often `v` occurs in `s`.
pub open spec fn occurrences(s: Seq<usize>, v: usize) -> nat
    decreases s.len(),
{
    if s.len() == 0 {
        0
    } else {
        occurrences(s.drop_last(), v) + if s.last() == v { 1nat } else { 0nat }
    }
}

/// `Graph::node_count`: the length of the node array. A graph with 32-bit
/// indices keeps `u32::MAX` free as its end marker, so it never holds more
/// than `u32::MAX` nodes.
#[verifier::external_body]
pub(crate) fn node_count(g: &UnGraph) -> (n: usize)
    ensures
        n == graph_order(*g),
        n <= u32::MAX,
{
    g.node_count()
}

/// `Graph::neighbors` on an undirected graph: the other end of every edge
/// from or to `a`, in no stated order. A node joined to `a` by several edges
/// comes once for each, and `a` itself comes once for each of its loops. All
/// of them are nodes of the graph.
#[verifier::external_body]
pub(crate) fn neighbors(g: &UnGraph, a: usize) -> (r: Vec<usize>)
    requires
        a < graph_order(*g),
    ensures
        forall|i: int| 0 <= i < r@.len() ==> (#[trigger] r@[i]) < graph_order(*g),
        forall|v: usize| occurrences(r@, v) == links(graph_edges(*g), a, v),
{
    g.neighbors(petgraph::graph::NodeIndex::new(a)).map(|v| v.index()).collect()
}

/// `Graph::edge_count`: the length of the edge array, which with 32-bit
/// indices never exceeds `u32::MAX`, the index kept free as the end marker.
#[verifier::external_body]
pub(crate) fn edge_count(g: &UnGraph) -> (m: usize)
    ensures
        m == graph_edges(*g).len(),
        m <= u32::MAX,
{
    g.edge_count()
}

/// `Graph::edge_references`: the edges in index order; the endpoints of
/// every edge are nodes of the graph.
#[verifier::external_body]
pub(crate) fn edge_list(g: &UnGraph) -> (r: Vec<(usize, usize)>)
    ensures
        r@ == graph_edges(*g),
        forall|i: int|
            0 <= i < r@.len() ==> (#[trigger] r@[i]).0 < graph_order(*g) && r@[i].1 < graph_order(
                *g,
            ),
{
    g.edge_references().map(|e| (e.source().index(), e.target().index())).collect()
}

/// `Graph::new_undirected`: a graph without nodes and edges.
#[verifier::external_body]
pub(crate) fn empty_graph() -> (g: UnGraph)
    ensures
        graph_order(g) == 0,
        graph_edges(g) == Seq::<(usize, usize)>::empty(),
{
    petgraph::graph::Graph::new_undirected()
}

/// `Graph::add_node`: one more node, with the next index and the weight
/// `weight`; the edges stay. It panics on a graph that already has
/// `u32::MAX` nodes.
#[verifier::external_body]
pub(crate) fn add_node(g: &mut UnGraph, weight: usize)
    requires
        graph_order(*old(g)) < u32::MAX,
    ensures
        graph_order(*final(g)) == graph_order(*old(g)) + 1,
        graph_edges(*final(g)) == graph_edges(*old(g)),
{
    g.add_node(weight);
}

/// `Graph::add_edge`: one more edge from `a` to `b` at the end of the edge
/// list; the nodes stay. It panics when `a` or `b` is no node, and on a
/// graph that already has `u32::MAX` edges.
#[verifier::external_body]
pub(crate) fn add_edge(g: &mut UnGraph, a: usize, b: usize)
    requires
        a < graph_order(*old(g)),
        b < graph_order(*old(g)),
        graph_edges(*old(g)).len() < u32::MAX,
    ensures
        graph_order(*final(g)) == graph_order(*old(g)),
        graph_edges(*final(g)) == graph_edges(*old(g)).push((a, b)),
{
    g.add_edge(petgraph::graph::NodeIndex::new(a), petgraph::graph::NodeIndex::new(b), ());
}

/// A prefix holds a value at most as often as the whole list.
pub proof fn lemma_occurrences_prefix(s: Seq<usize>, j: int, v: usize)
    requires
        0 <= j <= s.len(),
    ensures
        occurrences(s.take(j), v) <= occurrences(s, v),
    decreases s.len(),
{
    if j == s.len() {
        assert(s.take(j) =~= s);
    } else {
        lemma_occurrences_prefix(s.drop_last(), j, v);
        assert(s.drop_last().take(j) =~= s.take(j));
    }
}

/// A list holds a value at most as often as it is long.
pub proof fn lemma_occurrences_bound(s: Seq<usize>, v: usize)
    ensures
        occurrences(s, v) <= s.len(),
    decreases s.len(),
{
    if s.len() > 0 {
        lemma_occurrences_bound(s.drop_last(), v);
    }
}

/// As many edges join `u` and `v` as join `v` and `u`.
pub proof fn lemma_links_symmetric(edges: Seq<(usize, usize)>, u: usize, v: usize)
    ensures
        links(edges, u, v) == links(edges, v, u),
    decreases edges.len(),
{
    if edges.len() > 0 {
        lemma_links_symmetric(edges.drop_last(), u, v);
    }
}

} // verus!
