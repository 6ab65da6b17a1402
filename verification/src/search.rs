//! What the search for the key of a graph computes.
//!
//! A colouring that refinement leaves with a cell of several members is
//! branched: each member of its first such cell is in turn given a cell of
//! its own, and the result refined. The search goes level by level. Of all
//! branches of a level only those with the best invariant stay, and the
//! search ends with the first level whose best branches are discrete. The
//! key is the greatest descriptor among them.

use vstd::prelude::*;
use crate::descriptor::{descriptor, relabel};
use crate::equitable::lemma_refine_equitable;
use crate::kdim::{
    kdim_rank, lemma_kdim_rank_antisymmetric, lemma_kdim_rank_transitive, lemma_kdim_rank_zero,
    lex_rank,
};
use crate::partition::{lemma_split_wf, lemma_target, lemma_uniform_wf, ColouringView};
use crate::refinement::refine;

verus! {

/// The branches kept so far on a level, and the invariant they share.
pub struct Frontier {
    pub best: (usize, Seq<usize>),
    pub nodes: Seq<ColouringView>,
}

/// The colouring that the branch of `p` by the node `v` ends in: `v` gets a
/// cell of its own, and the result is refined.
pub open spec fn branch_coloring(
    p: ColouringView,
    edges: Seq<(usize, usize)>,
    v: usize,
) -> ColouringView {
    refine(p.split(p.target(), seq![v]), edges).0
}

/// The invariant of the branch of `p` by the node `v`: the number of cells
/// it ends with, and the colour that the cell of `v` moved up to followed by
/// the trace of the refinement.
pub open spec fn branch_kdim(p: ColouringView, edges: Seq<(usize, usize)>, v: usize) -> (
    usize,
    Seq<usize>,
) {
    let q = p.split(p.target(), seq![v]);
    (refine(q, edges).0.cells.len() as usize, refine(q, edges).1.insert(0, q.cells[p.target()].color))
}

/// The frontier after the branch `r` with the invariant `kd` has been held
/// against it: a better one replaces what was kept, an equal one joins it,
/// a worse one is dropped.
pub open spec fn consider(f: Frontier, r: ColouringView, kd: (usize, Seq<usize>)) -> Frontier {
    if kdim_rank(f.best, kd) > 0 {
        f
    } else if kdim_rank(f.best, kd) < 0 {
        Frontier { best: kd, nodes: seq![r] }
    } else {
        Frontier { best: f.best, nodes: f.nodes.push(r) }
    }
}

/// The frontier after the branches of `p` by the members of its first large
/// cell from position `i` on, in ascending order.
pub open spec fn expand_node(
    f: Frontier,
    p: ColouringView,
    edges: Seq<(usize, usize)>,
    i: nat,
) -> Frontier
    decreases p.cells[p.target()].members.len() - i,
{
    let ms = p.cells[p.target()].members;
    if i >= ms.len() {
        f
    } else {
        expand_node(
            consider(f, branch_coloring(p, edges, ms[i as int]), branch_kdim(p, edges, ms[i as int])),
            p,
            edges,
            i + 1,
        )
    }
}

/// The frontier after all branches of the colourings `nodes` from position
/// `j` on.
pub open spec fn expand_level(
    f: Frontier,
    nodes: Seq<ColouringView>,
    edges: Seq<(usize, usize)>,
    j: nat,
) -> Frontier
    decreases nodes.len() - j,
{
    if j >= nodes.len() {
        f
    } else {
        expand_level(expand_node(f, nodes[j as int], edges, 0), nodes, edges, j + 1)
    }
}

/// The frontier at the start of a level: nothing kept, and an invariant
/// that every branch beats.
pub open spec fn empty_frontier() -> Frontier {
    Frontier { best: (0, Seq::empty()), nodes: Seq::empty() }
}

/// The discrete colourings that the search from the level `nodes` ends with.
/// All of `nodes` have `count` cells; the next level has more, so there are
/// fewer than `n` levels.
pub open spec fn search(
    nodes: Seq<ColouringView>,
    edges: Seq<(usize, usize)>,
    count: nat,
    n: nat,
) -> Seq<ColouringView>
    decreases n - count,
{
    let f = expand_level(empty_frontier(), nodes, edges, 0);
    if count < f.best.0 < n {
        search(f.nodes, edges, f.best.0 as nat, n)
    } else {
        f.nodes
    }
}

/// The descriptor that the discrete colouring `p` gives the graph: that of
/// the graph with every node renamed to its colour.
pub open spec fn leaf_descriptor(p: ColouringView, edges: Seq<(usize, usize)>) -> Seq<usize> {
    descriptor(p.size, relabel(edges, p.color_of_node))
}

/// The greatest descriptor, in lexicographic order, among those of the
/// first `k + 1` of `leaves`.
pub open spec fn max_descriptor(
    leaves: Seq<ColouringView>,
    edges: Seq<(usize, usize)>,
    k: nat,
) -> Seq<usize>
    decreases k,
{
    if k == 0 {
        leaf_descriptor(leaves[0], edges)
    } else {
        let rest = max_descriptor(leaves, edges, (k - 1) as nat);
        let d = leaf_descriptor(leaves[k as int], edges);
        if lex_rank(d, rest, 0) > 0 {
            d
        } else {
            rest
        }
    }
}

/// The key of the graph on `n` nodes with the edges `edges`. The graph
/// without nodes has the empty key.
pub open spec fn graph_key(n: nat, edges: Seq<(usize, usize)>) -> Seq<usize> {
    if n == 0 {
        Seq::empty()
    } else {
        let root = refine(ColouringView::uniform(n), edges).0;
        if root.is_discrete() {
            leaf_descriptor(root, edges)
        } else {
            let leaves = search(seq![root], edges, root.cells.len(), n);
            max_descriptor(leaves, edges, (leaves.len() - 1) as nat)
        }
    }
}

/// What holds of the branches kept on the level above colourings of `count`
/// cells on `n` nodes: they are valid, they all have as many cells as the
/// invariant says, and more than `count`.
pub open spec fn frontier_ok(f: Frontier, n: nat, count: nat) -> bool {
    &&& forall|i: int|
        0 <= i < f.nodes.len() ==> (#[trigger] f.nodes[i]).wf() && f.nodes[i].size == n
            && f.nodes[i].cells.len() == f.best.0
    &&& f.best.0 <= n
    &&& f.nodes.len() == 0 ==> f.best == (0usize, Seq::<usize>::empty())
    &&& f.nodes.len() > 0 ==> f.best.0 > count
}

/// A member of the first large cell can be given a cell of its own.
pub proof fn lemma_can_individualize(p: ColouringView, v: usize)
    requires
        p.wf(),
        !p.is_discrete(),
        p.cells[p.target()].members.contains(v),
    ensures
        0 <= p.target() < p.cells.len(),
        p.can_split(p.target(), seq![v]),
{
    lemma_target(p);
    let k = p.target();
    let ms = p.cells[k].members;
    let sub = seq![v];
    assert(sub[0] == v);
    assert(ms[0] < ms[1]);
    if ms[0] == v {
        assert(!sub.contains(ms[1]));
    } else {
        assert(!sub.contains(ms[0]));
    }
}

/// A branch ends in a valid colouring of the same nodes with more cells,
/// and its invariant holds the number of those cells.
pub proof fn lemma_branch(p: ColouringView, edges: Seq<(usize, usize)>, v: usize)
    requires
        p.wf(),
        !p.is_discrete(),
        p.cells[p.target()].members.contains(v),
    ensures
        branch_coloring(p, edges, v).wf(),
        branch_coloring(p, edges, v).size == p.size,
        branch_coloring(p, edges, v).cells.len() > p.cells.len(),
        branch_kdim(p, edges, v).0 == branch_coloring(p, edges, v).cells.len(),
{
    lemma_can_individualize(p, v);
    lemma_split_wf(p, p.target(), seq![v]);
    lemma_refine_equitable(p.split(p.target(), seq![v]), edges);
}

/// Holding a branch of a colouring of `count` cells against the frontier
/// keeps the frontier in order and leaves it with a branch.
pub proof fn lemma_consider(
    f: Frontier,
    r: ColouringView,
    kd: (usize, Seq<usize>),
    n: nat,
    count: nat,
)
    requires
        frontier_ok(f, n, count),
        r.wf(),
        r.size == n,
        r.cells.len() == kd.0,
        r.cells.len() > count,
    ensures
        frontier_ok(consider(f, r, kd), n, count),
        consider(f, r, kd).nodes.len() > 0,
{
    lemma_kdim_rank_zero(f.best, kd);
    let g = consider(f, r, kd);
    if kdim_rank(f.best, kd) == 0 {
        assert forall|i: int| 0 <= i < g.nodes.len() implies (#[trigger] g.nodes[i]).wf()
            && g.nodes[i].size == n && g.nodes[i].cells.len() == g.best.0 by {
            if i < f.nodes.len() {
                assert(g.nodes[i] == f.nodes[i]);
            }
        }
    }
}

/// The branches of a colouring keep the frontier in order.
pub proof fn lemma_expand_node(
    f: Frontier,
    p: ColouringView,
    edges: Seq<(usize, usize)>,
    i: nat,
    count: nat,
)
    requires
        frontier_ok(f, p.size, count),
        p.wf(),
        !p.is_discrete(),
        p.cells.len() == count,
    ensures
        frontier_ok(expand_node(f, p, edges, i), p.size, count),
        i < p.cells[p.target()].members.len() || f.nodes.len() > 0 ==> expand_node(
            f,
            p,
            edges,
            i,
        ).nodes.len() > 0,
    decreases p.cells[p.target()].members.len() - i,
{
    let ms = p.cells[p.target()].members;
    if i < ms.len() {
        assert(ms.contains(ms[i as int]));
        lemma_branch(p, edges, ms[i as int]);
        lemma_consider(
            f,
            branch_coloring(p, edges, ms[i as int]),
            branch_kdim(p, edges, ms[i as int]),
            p.size,
            count,
        );
        lemma_expand_node(
            consider(
                f,
                branch_coloring(p, edges, ms[i as int]),
                branch_kdim(p, edges, ms[i as int]),
            ),
            p,
            edges,
            i + 1,
            count,
        );
    }
}

/// Whether `nodes` is a level of the search on `n` nodes: valid colourings
/// of `count` cells each, none of them discrete.
pub open spec fn level(nodes: Seq<ColouringView>, n: nat, count: nat) -> bool {
    forall|j: int|
        0 <= j < nodes.len() ==> (#[trigger] nodes[j]).wf() && nodes[j].size == n
            && !nodes[j].is_discrete() && nodes[j].cells.len() == count
}

/// The branches of a level keep the frontier in order.
pub proof fn lemma_expand_level(
    f: Frontier,
    nodes: Seq<ColouringView>,
    edges: Seq<(usize, usize)>,
    j: nat,
    n: nat,
    count: nat,
)
    requires
        frontier_ok(f, n, count),
        level(nodes, n, count),
    ensures
        frontier_ok(expand_level(f, nodes, edges, j), n, count),
        j < nodes.len() || f.nodes.len() > 0 ==> expand_level(f, nodes, edges, j).nodes.len() > 0,
    decreases nodes.len() - j,
{
    if j < nodes.len() {
        let p = nodes[j as int];
        lemma_target(p);
        lemma_expand_node(f, p, edges, 0, count);
        lemma_expand_level(expand_node(f, p, edges, 0), nodes, edges, j + 1, n, count);
    }
}

/// The search ends with discrete colourings, and with at least one.
pub proof fn lemma_search(
    nodes: Seq<ColouringView>,
    edges: Seq<(usize, usize)>,
    count: nat,
    n: nat,
)
    requires
        nodes.len() > 0,
        level(nodes, n, count),
    ensures
        search(nodes, edges, count, n).len() > 0,
        forall|i: int|
            0 <= i < search(nodes, edges, count, n).len() ==> (#[trigger] search(
                nodes,
                edges,
                count,
                n,
            )[i]).wf() && search(nodes, edges, count, n)[i].size == n && search(
                nodes,
                edges,
                count,
                n,
            )[i].is_discrete(),
    decreases n - count,
{
    let f = expand_level(empty_frontier(), nodes, edges, 0);
    lemma_expand_level(empty_frontier(), nodes, edges, 0, n, count);
    if count < f.best.0 < n {
        assert(level(f.nodes, n, f.best.0 as nat));
        lemma_search(f.nodes, edges, f.best.0 as nat, n);
    }
}

/// The greatest descriptor is the descriptor of one of the leaves.
pub proof fn lemma_max_descriptor_attained(
    leaves: Seq<ColouringView>,
    edges: Seq<(usize, usize)>,
    k: nat,
) -> (i: int)
    ensures
        0 <= i <= k,
        max_descriptor(leaves, edges, k) == leaf_descriptor(leaves[i], edges),
    decreases k,
{
    if k == 0 {
        0
    } else {
        let rest = max_descriptor(leaves, edges, (k - 1) as nat);
        let d = leaf_descriptor(leaves[k as int], edges);
        if lex_rank(d, rest, 0) > 0 {
            k as int
        } else {
            lemma_max_descriptor_attained(leaves, edges, (k - 1) as nat)
        }
    }
}

/// The key of a graph with nodes is the descriptor that some discrete
/// colouring of its nodes gives it.
pub proof fn lemma_key_leaf(n: nat, edges: Seq<(usize, usize)>) -> (p: ColouringView)
    requires
        0 < n <= usize::MAX,
    ensures
        p.wf(),
        p.size == n,
        p.is_discrete(),
        graph_key(n, edges) == leaf_descriptor(p, edges),
{
    lemma_uniform_wf(n);
    lemma_refine_equitable(ColouringView::uniform(n), edges);
    let root = refine(ColouringView::uniform(n), edges).0;
    if root.is_discrete() {
        root
    } else {
        let first = seq![root];
        assert(first[0] == root);
        lemma_search(first, edges, root.cells.len(), n);
        let leaves = search(first, edges, root.cells.len(), n);
        let i = lemma_max_descriptor_attained(leaves, edges, (leaves.len() - 1) as nat);
        leaves[i]
    }
}

/// A branch: the colouring it ends in, and its invariant.
pub struct Branch {
    pub coloring: ColouringView,
    pub kdim: (usize, Seq<usize>),
}

/// The branches of `p`, in the order of the members of its first large
/// cell.
pub open spec fn node_branches(p: ColouringView, edges: Seq<(usize, usize)>) -> Seq<Branch> {
    Seq::new(
        p.cells[p.target()].members.len(),
        |i: int|
            Branch {
                coloring: branch_coloring(p, edges, p.cells[p.target()].members[i]),
                kdim: branch_kdim(p, edges, p.cells[p.target()].members[i]),
            },
    )
}

/// The branches of the colourings `nodes` from position `j` on, in order.
pub open spec fn level_branches(
    nodes: Seq<ColouringView>,
    edges: Seq<(usize, usize)>,
    j: nat,
) -> Seq<Branch>
    decreases nodes.len() - j,
{
    if j >= nodes.len() {
        Seq::empty()
    } else {
        node_branches(nodes[j as int], edges) + level_branches(nodes, edges, j + 1)
    }
}

/// The frontier after the branches `items` from position `t` on have been
/// held against it.
pub open spec fn hold_all(f: Frontier, items: Seq<Branch>, t: nat) -> Frontier
    decreases items.len() - t,
{
    if t >= items.len() {
        f
    } else {
        hold_all(consider(f, items[t as int].coloring, items[t as int].kdim), items, t + 1)
    }
}

/// A colouring holds its branches against the frontier one after the other.
proof fn lemma_expand_node_fold(
    f: Frontier,
    p: ColouringView,
    edges: Seq<(usize, usize)>,
    i: nat,
)
    ensures
        expand_node(f, p, edges, i) == hold_all(f, node_branches(p, edges), i),
    decreases p.cells[p.target()].members.len() - i,
{
    let ms = p.cells[p.target()].members;
    if i < ms.len() {
        lemma_expand_node_fold(
            consider(
                f,
                branch_coloring(p, edges, ms[i as int]),
                branch_kdim(p, edges, ms[i as int]),
            ),
            p,
            edges,
            i + 1,
        );
    }
}

/// Holding two lists of branches in a row is holding the first, then the
/// second.
proof fn lemma_hold_all_concat(f: Frontier, a: Seq<Branch>, b: Seq<Branch>, t: nat)
    requires
        t <= a.len(),
    ensures
        hold_all(f, a + b, t) == hold_all(hold_all(f, a, t), b, 0),
    decreases a.len() + b.len() - t,
{
    if t < a.len() {
        assert((a + b)[t as int] == a[t as int]);
        lemma_hold_all_concat(
            consider(f, a[t as int].coloring, a[t as int].kdim),
            a,
            b,
            t + 1,
        );
    } else {
        lemma_hold_all_shift(f, a, b, 0);
    }
}

/// Holding the branches behind a list of branches is holding them alone.
proof fn lemma_hold_all_shift(f: Frontier, a: Seq<Branch>, b: Seq<Branch>, t: nat)
    requires
        t <= b.len(),
    ensures
        hold_all(f, a + b, a.len() + t) == hold_all(f, b, t),
    decreases b.len() - t,
{
    if t < b.len() {
        assert((a + b)[(a.len() + t) as int] == b[t as int]);
        lemma_hold_all_shift(
            consider(f, b[t as int].coloring, b[t as int].kdim),
            a,
            b,
            t + 1,
        );
    }
}

/// A level holds its branches against the frontier one after the other.
pub proof fn lemma_expand_level_fold(
    f: Frontier,
    nodes: Seq<ColouringView>,
    edges: Seq<(usize, usize)>,
    j: nat,
)
    ensures
        expand_level(f, nodes, edges, j) == hold_all(f, level_branches(nodes, edges, j), 0),
    decreases nodes.len() - j,
{
    if j < nodes.len() {
        let here = node_branches(nodes[j as int], edges);
        let rest = level_branches(nodes, edges, j + 1);
        lemma_expand_node_fold(f, nodes[j as int], edges, 0);
        lemma_expand_level_fold(expand_node(f, nodes[j as int], edges, 0), nodes, edges, j + 1);
        lemma_hold_all_concat(f, here, rest, 0);
    }
}

/// Whether `b` is a branch of one of the colourings `nodes`.
pub open spec fn is_branch(nodes: Seq<ColouringView>, edges: Seq<(usize, usize)>, b: Branch) -> bool {
    exists|j: int, i: int|
        0 <= j < nodes.len() && 0 <= i < node_branches(nodes[j], edges).len() && b
            == #[trigger] node_branches(nodes[j], edges)[i]
}

/// The branches of a level are the branches of its colourings.
#[verifier::rlimit(50)]
pub proof fn lemma_level_branches(nodes: Seq<ColouringView>, edges: Seq<(usize, usize)>, j: nat)
    ensures
        forall|t: int|
            0 <= t < level_branches(nodes, edges, j).len() ==> is_branch(
                nodes,
                edges,
                #[trigger] level_branches(nodes, edges, j)[t],
            ),
        forall|j0: int, i: int|
            j <= j0 < nodes.len() && 0 <= i < node_branches(nodes[j0], edges).len()
                ==> level_branches(nodes, edges, j).contains(
                #[trigger] node_branches(nodes[j0], edges)[i],
            ),
    decreases nodes.len() - j,
{
    let all = level_branches(nodes, edges, j);
    if j < nodes.len() {
        let here = node_branches(nodes[j as int], edges);
        let rest = level_branches(nodes, edges, j + 1);
        lemma_level_branches(nodes, edges, j + 1);
        assert forall|t: int| 0 <= t < all.len() implies is_branch(nodes, edges, #[trigger] all[t]) by {
            if t < here.len() {
                assert(all[t] == node_branches(nodes[j as int], edges)[t]);
            } else {
                assert(all[t] == rest[t - here.len()]);
            }
        }
        assert forall|j0: int, i: int|
            j <= j0 < nodes.len() && 0 <= i < node_branches(nodes[j0], edges).len() implies all.contains(
            #[trigger] node_branches(nodes[j0], edges)[i],
        ) by {
            let b = node_branches(nodes[j0], edges)[i];
            if j0 == j {
                assert(all[i] == b);
            } else {
                assert(rest.contains(b));
                let t = choose|t: int| 0 <= t < rest.len() && rest[t] == b;
                assert(all[here.len() + t] == b);
            }
        }
    }
}

/// Whether the node at position `x` of the frontier is one of the first `t`
/// of `items` and has the invariant of the frontier.
pub open spec fn kept_from(f: Frontier, items: Seq<Branch>, t: nat, x: int) -> bool {
    exists|i: int|
        0 <= i < t && (#[trigger] items[i]).coloring == f.nodes[x] && items[i].kdim == f.best
}

/// Whether the frontier holds exactly the best of the first `t` of `items`:
/// none of them has a better invariant than the frontier, and the frontier
/// keeps those, and only those, that have the same.
pub open spec fn keeps_best(f: Frontier, items: Seq<Branch>, t: nat) -> bool {
    &&& forall|i: int| 0 <= i < t ==> kdim_rank(f.best, (#[trigger] items[i]).kdim) >= 0
    &&& forall|x: int| 0 <= x < f.nodes.len() ==> #[trigger] kept_from(f, items, t, x)
    &&& forall|i: int|
        0 <= i < t && (#[trigger] items[i]).kdim == f.best ==> f.nodes.contains(items[i].coloring)
    &&& t == 0 ==> f == empty_frontier()
    &&& t > 0 ==> f.nodes.len() > 0
}

/// Holding branches against the frontier keeps the best of them.
#[verifier::rlimit(50)]
pub proof fn lemma_hold_all_keeps_best(f: Frontier, items: Seq<Branch>, t: nat)
    requires
        t <= items.len(),
        keeps_best(f, items, t),
        forall|i: int| 0 <= i < items.len() ==> (#[trigger] items[i]).kdim.0 > 0,
    ensures
        keeps_best(hold_all(f, items, t), items, items.len()),
    decreases items.len() - t,
{
    if t < items.len() {
        let r = items[t as int].coloring;
        let kd = items[t as int].kdim;
        let g = consider(f, r, kd);
        lemma_kdim_rank_zero(f.best, kd);
        lemma_kdim_rank_zero(kd, kd);
        lemma_kdim_rank_antisymmetric(f.best, kd);
        assert(items[t as int].kdim.0 > 0);
        if kdim_rank(f.best, kd) > 0 {
            assert forall|x: int| 0 <= x < g.nodes.len() implies #[trigger] kept_from(
                g,
                items,
                t + 1,
                x,
            ) by {
                assert(kept_from(f, items, t, x));
            }
        } else if kdim_rank(f.best, kd) < 0 {
            assert forall|i: int| 0 <= i < t + 1 implies kdim_rank(
                g.best,
                (#[trigger] items[i]).kdim,
            ) >= 0 by {
                if i < t {
                    lemma_kdim_rank_transitive(kd, f.best, items[i].kdim);
                }
            }
            assert forall|x: int| 0 <= x < g.nodes.len() implies #[trigger] kept_from(
                g,
                items,
                t + 1,
                x,
            ) by {
                assert(items[t as int].coloring == g.nodes[x]);
            }
            assert forall|i: int| 0 <= i < t + 1 && (#[trigger] items[i]).kdim
                == g.best implies g.nodes.contains(items[i].coloring) by {
                if i < t {
                    assert(kdim_rank(f.best, items[i].kdim) >= 0);
                } else {
                    assert(g.nodes[0] == r);
                }
            }
        } else {
            assert forall|x: int| 0 <= x < g.nodes.len() implies #[trigger] kept_from(
                g,
                items,
                t + 1,
                x,
            ) by {
                if x < f.nodes.len() {
                    assert(kept_from(f, items, t, x));
                    assert(g.nodes[x] == f.nodes[x]);
                } else {
                    assert(items[t as int].coloring == g.nodes[x]);
                }
            }
            assert forall|i: int| 0 <= i < t + 1 && (#[trigger] items[i]).kdim
                == g.best implies g.nodes.contains(items[i].coloring) by {
                if i < t {
                    assert(f.nodes.contains(items[i].coloring));
                    let x = choose|x: int| 0 <= x < f.nodes.len() && f.nodes[x] == items[i].coloring;
                    assert(g.nodes[x] == items[i].coloring);
                } else {
                    assert(g.nodes[f.nodes.len() as int] == r);
                }
            }
        }
        lemma_hold_all_keeps_best(g, items, t + 1);
    }
}

} // verus!
