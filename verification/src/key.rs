//! The key of a graph, and the search that finds it.

use vstd::prelude::*;
use crate::coloring::Colouring;
use crate::descriptor::compute_descriptor;
use crate::graph::{graph_edges, graph_order, node_count, UnGraph};
use crate::kdim::{kdim_rank, lemma_kdim_rank_zero, rank_traces, Kdim};
use crate::partition::{lemma_target, ColouringView};
use crate::search::{
    branch_coloring, branch_kdim, consider, empty_frontier, expand_level, expand_node, graph_key,
    max_descriptor, search, Frontier,
};

verus! {

/// The canonical key of a graph: equal for graphs that differ only in how
/// their nodes are numbered.
#[derive(Debug, Hash, PartialEq, Eq)]
pub struct GraphKey(Vec<usize>);

impl View for GraphKey {
    type V = Seq<usize>;

    closed spec fn view(&self) -> Seq<usize> {
        self.0@
    }
}

/// A node of the search tree: a colouring, the cell it is branched at, the
/// members of that cell that have not been branched by yet (kept in
/// descending order, so that the smallest is taken first), the branch by the
/// first member if it was followed ahead of its turn, and the invariant that
/// this node was entered with.
struct TreeNode {
    c: Colouring,
    target_cell: usize,
    children: Vec<usize>,
    son_in_exp_path: Option<Box<TreeNode>>,
    k_dim: Option<Kdim>,
}

/// Whether `children` holds the last entries of `ms`, in reverse.
spec fn remaining(children: Seq<usize>, ms: Seq<usize>) -> bool {
    children.len() <= ms.len() && forall|t: int|
        0 <= t < children.len() ==> #[trigger] children[t] == ms[ms.len() - 1 - t]
}

/// What holds of a node of the search tree over the graph on `n` nodes with
/// the edges `edges`.
spec fn node_ok(t: TreeNode, edges: Seq<(usize, usize)>, n: nat) -> bool
    decreases t,
{
    let p = t.c@;
    let ms = p.cells[p.target()].members;
    &&& t.c.wf()
    &&& p.size == n
    &&& match t.son_in_exp_path {
        None => true,
        Some(s) => {
            &&& !p.is_discrete()
            &&& t.children@.len() + 1 == ms.len()
            &&& s.c@ == branch_coloring(p, edges, ms[0])
            &&& s.k_dim is Some
            &&& s.k_dim.unwrap()@ == branch_kdim(p, edges, ms[0])
            &&& s.c@.cells.len() > p.cells.len()
            &&& s.c@.cells.len() == s.k_dim.unwrap()@.0
            &&& node_ok(*s, edges, n)
        },
    }
    &&& !p.is_discrete() ==> {
        &&& t.target_cell == p.target()
        &&& remaining(t.children@, ms)
        &&& (t.son_in_exp_path is None ==> t.children@.len() == ms.len())
    }
}

/// The colourings of the nodes in `list`.
spec fn colorings(list: Seq<TreeNode>) -> Seq<ColouringView> {
    Seq::new(list.len(), |i: int| list[i].c@)
}

/// The frontier that `best` and `list` stand for.
spec fn frontier_of(best: Kdim, list: Seq<TreeNode>) -> Frontier {
    Frontier { best: best@, nodes: colorings(list) }
}

/// What holds of the branches kept on the level above colourings of `count`
/// cells: they all have as many cells as `best` says, and more than `count`.
spec fn level_ok(
    best: Kdim,
    list: Seq<TreeNode>,
    edges: Seq<(usize, usize)>,
    n: nat,
    count: nat,
) -> bool {
    &&& forall|i: int|
        0 <= i < list.len() ==> node_ok(#[trigger] list[i], edges, n) && list[i].c@.cells.len()
            == best@.0
    &&& best@.0 <= n
    &&& list.len() == 0 ==> best@ == (0usize, Seq::<usize>::empty())
    &&& list.len() > 0 ==> best@.0 > count
}

/// The entries of `ms` in reverse.
fn descending(ms: &Vec<usize>) -> (r: Vec<usize>)
    ensures
        r.len() == ms.len(),
        remaining(r@, ms@),
{
    let mut r: Vec<usize> = Vec::new();
    let mut i: usize = ms.len();
    while i > 0
        invariant
            i <= ms.len(),
            r.len() == ms.len() - i,
            forall|t: int| 0 <= t < r.len() ==> #[trigger] r[t] == ms[ms.len() - 1 - t],
        decreases i,
    {
        i -= 1;
        r.push(ms[i]);
    }
    r
}

/// The nodes of `list` in reverse.
fn reversed(list: Vec<TreeNode>) -> (r: Vec<TreeNode>)
    ensures
        r.len() == list.len(),
        forall|i: int| 0 <= i < r.len() ==> #[trigger] r[i] == list[list.len() - 1 - i],
{
    let ghost all = list@;
    let mut list = list;
    let mut r: Vec<TreeNode> = Vec::new();
    while list.len() > 0
        invariant
            list.len() <= all.len(),
            list@ == all.take(list.len() as int),
            r.len() == all.len() - list.len(),
            forall|i: int| 0 <= i < r.len() ==> #[trigger] r[i] == all[all.len() - 1 - i],
        decreases list.len(),
    {
        let ghost before = list@;
        let t = list.pop().unwrap();
        proof {
            assert(list@ =~= all.take(list.len() as int));
            assert(t == before[before.len() - 1]);
        }
        r.push(t);
    }
    r
}

/// The branch of `c` by the member `v` of its first large cell: the refined
/// colouring and its invariant.
fn branch(c: &Colouring, target: usize, v: usize, g: &UnGraph) -> (r: (Colouring, Kdim))
    requires
        c.wf(),
        c@.size == graph_order(*g),
        !c@.is_discrete(),
        target == c@.target(),
        c@.cells[target as int].members.contains(v),
    ensures
        r.0.wf(),
        r.0@.size == c@.size,
        r.0@ == branch_coloring(c@, graph_edges(*g), v),
        r.1@ == branch_kdim(c@, graph_edges(*g), v),
        r.0@.cells.len() > c@.cells.len(),
        r.1@.0 == r.0@.cells.len(),
{
    proof {
        lemma_target(c@);
    }
    let mut gc = c.clone();
    let new_color = gc.individualize(target, v);
    let mut trace = gc.refine(g);
    trace.insert(0, new_color);
    let kd = Kdim::new(gc.get_cell_count(), trace);
    (gc, kd)
}

/// The node for the colouring `gc` that was entered with `kd`, with the
/// branches by first members followed ahead down to a discrete colouring.
fn descend(gc: Colouring, kd: Kdim, g: &UnGraph) -> (t: TreeNode)
    requires
        gc.wf(),
        gc@.size == graph_order(*g),
    ensures
        node_ok(t, graph_edges(*g), graph_order(*g)),
        t.c@ == gc@,
        t.k_dim is Some,
        t.k_dim.unwrap()@ == kd@,
    decreases gc@.size - gc@.cells.len(),
{
    if gc.is_discrete() {
        TreeNode {
            c: gc,
            target_cell: 0,
            children: Vec::new(),
            son_in_exp_path: None,
            k_dim: Some(kd),
        }
    } else {
        let target = gc.select_cell_v1();
        let mut children = descending(gc.cell_members(target));
        let ghost ms = gc@.cells[target as int].members;
        let v = children.pop().unwrap();
        proof {
            assert(v == ms[0]);
        }
        let (gc2, kd2) = branch(&gc, target, v, g);
        let son = descend(gc2, kd2, g);
        TreeNode {
            c: gc,
            target_cell: target,
            children,
            son_in_exp_path: Some(Box::new(son)),
            k_dim: Some(kd),
        }
    }
}

/// Holds the node `t` against the branches kept so far: it replaces them if
/// its invariant is better, joins them if it is the same, and is dropped if
/// it is worse.
fn hold_against(
    best: Kdim,
    list: Vec<TreeNode>,
    t: TreeNode,
    Ghost(edges): Ghost<Seq<(usize, usize)>>,
    Ghost(n): Ghost<nat>,
    Ghost(count): Ghost<nat>,
) -> (r: (Kdim, Vec<TreeNode>))
    requires
        level_ok(best, list@, edges, n, count),
        node_ok(t, edges, n),
        t.k_dim is Some,
        t.k_dim.unwrap()@.0 == t.c@.cells.len(),
        t.c@.cells.len() > count,
    ensures
        level_ok(r.0, r.1@, edges, n, count),
        r.1@.len() > 0,
        frontier_of(r.0, r.1@) == consider(
            frontier_of(best, list@),
            t.c@,
            t.k_dim.unwrap()@,
        ),
{
    let mut list = list;
    let ghost before = list@;
    let rank = match &t.k_dim {
        Some(kd) => best.rank(kd),
        None => 0,
    };
    proof {
        lemma_kdim_rank_zero(best@, t.k_dim.unwrap()@);
        if list.len() == 0 {
            assert(kdim_rank(best@, t.k_dim.unwrap()@) < 0);
        }
    }
    if rank > 0 {
        (best, list)
    } else if rank < 0 {
        let better = match &t.k_dim {
            Some(kd) => kd.clone(),
            None => best,
        };
        let mut fresh: Vec<TreeNode> = Vec::new();
        fresh.push(t);
        proof {
            assert(colorings(fresh@) =~= seq![t.c@]);
        }
        (better, fresh)
    } else {
        list.push(t);
        proof {
            assert(colorings(list@) =~= colorings(before).push(t.c@));
            assert forall|i: int| 0 <= i < list.len() implies node_ok(
                #[trigger] list[i],
                edges,
                n,
            ) && list[i].c@.cells.len() == best@.0 by {
                if i < before.len() {
                    assert(list[i] == before[i]);
                }
            }
        }
        (best, list)
    }
}

/// Holds all branches of `node` against the branches kept so far.
fn expand(
    node: TreeNode,
    best: Kdim,
    list: Vec<TreeNode>,
    g: &UnGraph,
    Ghost(count): Ghost<nat>,
) -> (r: (Kdim, Vec<TreeNode>))
    requires
        node_ok(node, graph_edges(*g), graph_order(*g)),
        !node.c@.is_discrete(),
        node.c@.cells.len() == count,
        level_ok(best, list@, graph_edges(*g), graph_order(*g), count),
    ensures
        level_ok(r.0, r.1@, graph_edges(*g), graph_order(*g), count),
        r.1@.len() > 0,
        frontier_of(r.0, r.1@) == expand_node(
            frontier_of(best, list@),
            node.c@,
            graph_edges(*g),
            0,
        ),
{
    let ghost edges = graph_edges(*g);
    let ghost n = graph_order(*g);
    let ghost p = node.c@;
    let ghost ms = p.cells[p.target()].members;
    let ghost start = frontier_of(best, list@);
    let TreeNode { c, target_cell, children, son_in_exp_path, k_dim } = node;
    let mut children = children;
    let mut best = best;
    let mut list = list;
    proof {
        lemma_target(p);
    }
    match son_in_exp_path {
        Some(b) => {
            let t: TreeNode = *b;
            let kept = hold_against(best, list, t, Ghost(edges), Ghost(n), Ghost(count));
            best = kept.0;
            list = kept.1;
        },
        None => {},
    }
    while children.len() > 0
        invariant
            c.wf(),
            c@ == p,
            p.size == n,
            n == graph_order(*g),
            edges == graph_edges(*g),
            !p.is_discrete(),
            p.cells.len() == count,
            target_cell == p.target(),
            ms == p.cells[p.target()].members,
            ms.len() > 1,
            remaining(children@, ms),
            level_ok(best, list@, edges, n, count),
            children.len() < ms.len() ==> list.len() > 0,
            expand_node(
                frontier_of(best, list@),
                p,
                edges,
                (ms.len() - children.len()) as nat,
            ) == expand_node(start, p, edges, 0),
        decreases children.len(),
    {
        let ghost i = ms.len() - children.len();
        let v = children.pop().unwrap();
        proof {
            assert(v == ms[i]);
        }
        let (gc, kd) = branch(&c, target_cell, v, g);
        if best.rank(&kd) <= 0 {
            let t = descend(gc, kd, g);
            let kept = hold_against(best, list, t, Ghost(edges), Ghost(n), Ghost(count));
            best = kept.0;
            list = kept.1;
        } else {
            proof {
                if list.len() == 0 {
                    assert(kdim_rank(best@, kd@) < 0);
                }
            }
        }
    }
    (best, list)
}

/// The best branches of all the nodes in `current`.
fn next_level(current: Vec<TreeNode>, g: &UnGraph, Ghost(count): Ghost<nat>) -> (r: (
    Kdim,
    Vec<TreeNode>,
))
    requires
        current.len() > 0,
        forall|i: int|
            0 <= i < current.len() ==> node_ok(
                #[trigger] current[i],
                graph_edges(*g),
                graph_order(*g),
            ) && !current[i].c@.is_discrete() && current[i].c@.cells.len() == count,
    ensures
        level_ok(r.0, r.1@, graph_edges(*g), graph_order(*g), count),
        r.1@.len() > 0,
        frontier_of(r.0, r.1@) == expand_level(
            empty_frontier(),
            colorings(current@),
            graph_edges(*g),
            0,
        ),
{
    let ghost edges = graph_edges(*g);
    let ghost n = graph_order(*g);
    let ghost all = current@;
    let ghost nodes = colorings(current@);
    let mut rest = reversed(current);
    let mut best = Kdim::new(0, Vec::new());
    let mut list: Vec<TreeNode> = Vec::new();
    proof {
        assert(colorings(list@) =~= Seq::<ColouringView>::empty());
        assert(frontier_of(best, list@) == empty_frontier());
    }
    while rest.len() > 0
        invariant
            rest.len() <= all.len(),
            all.len() > 0,
            nodes == colorings(all),
            n == graph_order(*g),
            edges == graph_edges(*g),
            forall|i: int|
                0 <= i < all.len() ==> node_ok(#[trigger] all[i], edges, n)
                    && !all[i].c@.is_discrete() && all[i].c@.cells.len() == count,
            forall|i: int| 0 <= i < rest.len() ==> #[trigger] rest[i] == all[all.len() - 1 - i],
            level_ok(best, list@, edges, n, count),
            rest.len() < all.len() ==> list.len() > 0,
            expand_level(
                frontier_of(best, list@),
                nodes,
                edges,
                (all.len() - rest.len()) as nat,
            ) == expand_level(empty_frontier(), nodes, edges, 0),
        decreases rest.len(),
    {
        let ghost j = all.len() - rest.len();
        let ghost before = rest@;
        let node = rest.pop().unwrap();
        proof {
            assert(node == before[before.len() - 1]);
            assert(node == all[j]);
            assert(nodes[j] == node.c@);
            assert forall|i: int| 0 <= i < rest.len() implies #[trigger] rest[i] == all[all.len()
                - 1 - i] by {
                assert(rest[i] == before[i]);
            }
        }
        let kept = expand(node, best, list, g, Ghost(count));
        best = kept.0;
        list = kept.1;
    }
    (best, list)
}

/// The discrete colourings that the search from `root` ends with.
fn search_levels(root: TreeNode, g: &UnGraph) -> (leaves: Vec<TreeNode>)
    requires
        node_ok(root, graph_edges(*g), graph_order(*g)),
        !root.c@.is_discrete(),
    ensures
        leaves.len() > 0,
        forall|i: int|
            0 <= i < leaves.len() ==> (#[trigger] leaves[i]).c.wf() && leaves[i].c@.size
                == graph_order(*g),
        colorings(leaves@) == search(
            seq![root.c@],
            graph_edges(*g),
            root.c@.cells.len(),
            graph_order(*g),
        ),
{
    let ghost edges = graph_edges(*g);
    let ghost first = seq![root.c@];
    let ghost first_count = root.c@.cells.len();
    let n = root.c.get_size();
    let mut count = root.c.get_cell_count();
    let mut list: Vec<TreeNode> = Vec::new();
    list.push(root);
    proof {
        assert(colorings(list@) =~= first);
    }
    let mut leaf_found = false;
    while !leaf_found
        invariant
            n == graph_order(*g),
            edges == graph_edges(*g),
            list.len() > 0,
            count <= n,
            forall|i: int|
                0 <= i < list.len() ==> node_ok(#[trigger] list[i], edges, n as nat)
                    && list[i].c@.cells.len() == count,
            !leaf_found ==> count < n && search(colorings(list@), edges, count as nat, n as nat)
                == search(first, edges, first_count, n as nat),
            leaf_found ==> colorings(list@) == search(first, edges, first_count, n as nat),
        decreases
                n - count + if leaf_found {
                    0int
                } else {
                    1int
                },
    {
        let kept = next_level(list, g, Ghost(count as nat));
        let best = kept.0;
        list = kept.1;
        count = best.cell_count();
        leaf_found = count == n;
    }
    list
}

/// The greatest descriptor among those that the colourings of `leaves` give
/// the graph `g`.
fn greatest_descriptor(leaves: &Vec<TreeNode>, g: &UnGraph) -> (d: Vec<usize>)
    requires
        leaves.len() > 0,
        forall|i: int|
            0 <= i < leaves.len() ==> (#[trigger] leaves[i]).c.wf() && leaves[i].c@.size
                == graph_order(*g),
    ensures
        d@ == max_descriptor(colorings(leaves@), graph_edges(*g), (leaves.len() - 1) as nat),
{
    let ghost edges = graph_edges(*g);
    let ghost nodes = colorings(leaves@);
    let canonical = leaves[0].c.compute_graph_from_discrete(g);
    let mut best_descriptor = compute_descriptor(&canonical);
    proof {
        assert(nodes[0] == leaves[0].c@);
    }
    let mut k: usize = 1;
    while k < leaves.len()
        invariant
            1 <= k <= leaves.len(),
            edges == graph_edges(*g),
            nodes == colorings(leaves@),
            forall|i: int|
                0 <= i < leaves.len() ==> (#[trigger] leaves[i]).c.wf() && leaves[i].c@.size
                    == graph_order(*g),
            best_descriptor@ == max_descriptor(nodes, edges, (k - 1) as nat),
        decreases leaves.len() - k,
    {
        let relabelled = leaves[k].c.compute_graph_from_discrete(g);
        let descriptor = compute_descriptor(&relabelled);
        proof {
            assert(nodes[k as int] == leaves[k as int].c@);
        }
        if rank_traces(&descriptor, &best_descriptor) > 0 {
            best_descriptor = descriptor;
        }
        k += 1;
    }
    best_descriptor
}

impl GraphKey {
    /// The integer sequence that makes up the key.
    pub fn get_descriptor(&self) -> (d: &Vec<usize>)
        ensures
            d@ == self@,
    {
        &self.0
    }

    /// The key of the graph `g`.
    ///
    /// The nodes start out in one cell, which is refined. If that leaves
    /// every node in a cell of its own, the key is the descriptor that these
    /// colours give. Otherwise it is the greatest descriptor among the best
    /// discrete colourings that the search finds. The graph without nodes
    /// has the empty key.
    ///
    /// What the key is worth is shown of `graph_key`: it is the same for
    /// graphs that a permutation of the nodes maps onto each other
    /// (`invariance::lemma_key_invariant`), graphs with the same key are
    /// isomorphic but for their loops
    /// (`distinct::lemma_equal_keys_isomorphic`), and every edge added or
    /// taken away between different nodes changes it
    /// (`distinct::lemma_edge_count_tells`).
    pub fn new(g: &UnGraph) -> (key: GraphKey)
        ensures
            key@ == graph_key(graph_order(*g), graph_edges(*g)),
    {
        let n = node_count(g);
        if n == 0 {
            return GraphKey(Vec::new());
        }
        let mut gc = Colouring::new(g);
        gc.refine(g);
        if gc.is_discrete() {
            let canonical = gc.compute_graph_from_discrete(g);
            return GraphKey(compute_descriptor(&canonical));
        }
        let target = gc.select_cell_v1();
        let children = descending(gc.cell_members(target));
        let root = TreeNode {
            c: gc,
            target_cell: target,
            children,
            son_in_exp_path: None,
            k_dim: None,
        };
        let leaves = search_levels(root, g);
        GraphKey(greatest_descriptor(&leaves, g))
    }
}

} // verus!
