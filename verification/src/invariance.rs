//! The key does not depend on how the nodes are numbered.
//!
//! Two graphs on the same nodes are taken together with a permutation of the
//! nodes that maps the one onto the other. Every step of the computation of
//! the key is followed on both: colourings that go with each other under
//! the permutation are split, refined and branched into colourings that go
//! with each other again, with the same traces, so that both searches keep
//! the same invariants and end with the same descriptors.

use vstd::prelude::*;
use crate::descriptor::{descriptor, last_link, relabel, row_upto, rows_upto};
use crate::distinct::{
    has_preimage, is_permutation, isomorphic_by, lemma_discrete_injective,
    lemma_equal_keys_isomorphic, lemma_relabel_links, valid_edges,
};
use crate::equitable::lemma_refine_equitable;
use crate::graph::links;
use crate::kdim::{
    kdim_rank, lemma_kdim_rank_antisymmetric, lemma_kdim_rank_zero, lemma_lex_rank_antisymmetric,
    lemma_lex_rank_transitive, lemma_lex_rank_zero, lex_rank,
};
use crate::search::{
    branch_coloring, branch_kdim, empty_frontier, expand_level, graph_key, hold_all, is_branch,
    keeps_best, kept_from, leaf_descriptor, lemma_branch, lemma_can_individualize,
    lemma_expand_level, lemma_expand_level_fold, lemma_hold_all_keeps_best, lemma_level_branches,
    lemma_max_descriptor_attained, lemma_search, level, level_branches, max_descriptor,
    node_branches, search, Branch, Frontier,
};
use crate::partition::{
    ascending, first_large_from, lemma_discrete_onto, lemma_node_colors,
    lemma_retain_ascending, lemma_retain_contains, lemma_split_wf, lemma_target,
    lemma_uniform_wf, retain, CellView, ColouringView,
};
use crate::refinement::{
    count_pending, degree, first_pending, least_degree, lemma_count_pending_clear,
    lemma_first_pending, lemma_least_degree, lemma_popped_ok, lemma_split_step, lemma_sweep,
    lemma_with_degree, popped, refine, refine_from, same_degree, source, split_by_degree, start,
    state_ok, sweep, with_degree, RefineState,
};

verus! {

/// Whether `sigma` and `tau` are permutations of the nodes below `n` that
/// undo each other.
pub open spec fn inverse_pair(sigma: Seq<usize>, tau: Seq<usize>, n: nat) -> bool {
    &&& n <= usize::MAX
    &&& sigma.len() == n
    &&& tau.len() == n
    &&& forall|u: int| 0 <= u < n ==> (#[trigger] sigma[u]) < n && tau[sigma[u] as int] == u
    &&& forall|w: int| 0 <= w < n ==> (#[trigger] tau[w]) < n && sigma[tau[w] as int] == w
}

/// Whether `sigma` maps the first graph onto the second: any two nodes are
/// joined by as many edges as their images.
pub open spec fn same_links(
    e1: Seq<(usize, usize)>,
    e2: Seq<(usize, usize)>,
    sigma: Seq<usize>,
    n: nat,
) -> bool {
    forall|u: int, v: int|
        #![trigger sigma[u], sigma[v]]
        0 <= u < n && 0 <= v < n ==> links(e2, sigma[u], sigma[v]) == links(
            e1,
            u as usize,
            v as usize,
        )
}

/// Whether `b` holds the images under `sigma` of the nodes that `a` holds.
pub open spec fn same_nodes(a: Seq<usize>, b: Seq<usize>, sigma: Seq<usize>, n: nat) -> bool {
    forall|u: int| 0 <= u < n ==> (b.contains(#[trigger] sigma[u]) <==> a.contains(u as usize))
}

/// Whether `a` and `b` are ascending lists of nodes below `n`, and `b`
/// holds the images of the nodes of `a`.
pub open spec fn image(a: Seq<usize>, b: Seq<usize>, sigma: Seq<usize>, n: nat) -> bool {
    &&& ascending(a)
    &&& ascending(b)
    &&& forall|i: int| 0 <= i < a.len() ==> (#[trigger] a[i]) < n
    &&& forall|i: int| 0 <= i < b.len() ==> (#[trigger] b[i]) < n
    &&& same_nodes(a, b, sigma, n)
}

/// The degree towards a list is the degree towards the list without one
/// entry, and the edges to that entry.
proof fn lemma_degree_remove(edges: Seq<(usize, usize)>, b: Seq<usize>, i: int, v: usize)
    requires
        0 <= i < b.len(),
    ensures
        degree(edges, b, v) == degree(edges, b.remove(i), v) + links(edges, b[i], v),
    decreases b.len(),
{
    if i == b.len() - 1 {
        assert(b.remove(i) =~= b.drop_last());
    } else {
        lemma_degree_remove(edges, b.drop_last(), i, v);
        assert(b.remove(i).drop_last() =~= b.drop_last().remove(i));
        assert(b.remove(i).last() == b.last());
    }
}

/// A list and the list of its images, each without its entry for one node,
/// still go together.
#[verifier::rlimit(50)]
proof fn lemma_image_shorter(
    a: Seq<usize>,
    b: Seq<usize>,
    sigma: Seq<usize>,
    tau: Seq<usize>,
    n: nat,
    i: int,
)
    requires
        inverse_pair(sigma, tau, n),
        image(a, b, sigma, n),
        a.len() > 0,
        0 <= i < b.len(),
        b[i] == sigma[a.last() as int],
    ensures
        image(a.drop_last(), b.remove(i), sigma, n),
{
    let a2 = a.drop_last();
    let b2 = b.remove(i);
    let last = a.last();
    assert(a[a.len() - 1] < n);
    assert forall|x: int, y: int| 0 <= x < y < b2.len() implies b2[x] < b2[y] by {
        let xx = if x < i { x } else { x + 1 };
        let yy = if y < i { y } else { y + 1 };
        assert(b[xx] < b[yy]);
    }
    assert forall|x: int| 0 <= x < b2.len() implies (#[trigger] b2[x]) < n by {
        let xx = if x < i { x } else { x + 1 };
        assert(b[xx] < n);
    }
    assert forall|u: int| 0 <= u < n implies (b2.contains(#[trigger] sigma[u]) <==> a2.contains(
        u as usize,
    )) by {
        if b2.contains(sigma[u]) {
            let x = choose|x: int| 0 <= x < b2.len() && b2[x] == sigma[u];
            let xx = if x < i { x } else { x + 1 };
            assert(b[xx] == sigma[u]);
            assert(b.contains(sigma[u]));
            assert(a.contains(u as usize));
            let y = choose|y: int| 0 <= y < a.len() && a[y] == u as usize;
            if y == a.len() - 1 {
                assert(sigma[u] == b[i]);
                if xx < i {
                    assert(b[xx] < b[i]);
                } else {
                    assert(b[i] < b[xx]);
                }
            }
            assert(a2[y] == u as usize);
        }
        if a2.contains(u as usize) {
            let y = choose|y: int| 0 <= y < a2.len() && a2[y] == u as usize;
            assert(a[y] == u as usize);
            assert(a[y] < a[a.len() - 1]);
            assert(a.contains(u as usize));
            assert(b.contains(sigma[u]));
            let xx = choose|xx: int| 0 <= xx < b.len() && b[xx] == sigma[u];
            if xx == i {
                assert(tau[sigma[u] as int] == u);
                assert(tau[sigma[last as int] as int] == last);
            }
            let x = if xx < i { xx } else { xx - 1 };
            assert(b2[x] == sigma[u]);
        }
    }
}

/// A list and the list of its images are equally long.
pub proof fn lemma_image_len(
    a: Seq<usize>,
    b: Seq<usize>,
    sigma: Seq<usize>,
    tau: Seq<usize>,
    n: nat,
)
    requires
        inverse_pair(sigma, tau, n),
        image(a, b, sigma, n),
    ensures
        a.len() == b.len(),
    decreases a.len(),
{
    if a.len() == 0 {
        if b.len() > 0 {
            let w = b[0] as int;
            assert(b[0] < n);
            assert(b.contains(sigma[tau[w] as int]));
            assert(a.contains(tau[w]));
        }
    } else {
        let last = a.last();
        assert(a[a.len() - 1] < n);
        assert(a.contains(last));
        assert(b.contains(sigma[last as int]));
        let i = choose|i: int| 0 <= i < b.len() && b[i] == sigma[last as int];
        lemma_image_shorter(a, b, sigma, tau, n, i);
        lemma_image_len(a.drop_last(), b.remove(i), sigma, tau, n);
    }
}

/// A node has as many edges into a list of nodes as its image has into the
/// list of their images.
pub proof fn lemma_image_degree(
    e1: Seq<(usize, usize)>,
    e2: Seq<(usize, usize)>,
    a: Seq<usize>,
    b: Seq<usize>,
    sigma: Seq<usize>,
    tau: Seq<usize>,
    n: nat,
    v: int,
)
    requires
        inverse_pair(sigma, tau, n),
        same_links(e1, e2, sigma, n),
        image(a, b, sigma, n),
        0 <= v < n,
    ensures
        degree(e2, b, sigma[v]) == degree(e1, a, v as usize),
    decreases a.len(),
{
    lemma_image_len(a, b, sigma, tau, n);
    if a.len() > 0 {
        let last = a.last();
        assert(a[a.len() - 1] < n);
        assert(a.contains(last));
        assert(b.contains(sigma[last as int]));
        let i = choose|i: int| 0 <= i < b.len() && b[i] == sigma[last as int];
        lemma_image_shorter(a, b, sigma, tau, n, i);
        lemma_image_degree(e1, e2, a.drop_last(), b.remove(i), sigma, tau, n, v);
        lemma_degree_remove(e2, b, i, sigma[v]);
        assert(links(e2, sigma[last as int], sigma[v]) == links(e1, last, v as usize));
    }
}

/// Whether `q` is the colouring `p` with every node replaced by its image:
/// the same cells with the same colours in the same order, and the image of
/// a node in the cell of the node.
#[verifier::opaque]
pub open spec fn twin(p: ColouringView, q: ColouringView, sigma: Seq<usize>, n: nat) -> bool {
    &&& p.wf()
    &&& q.wf()
    &&& p.size == n
    &&& q.size == n
    &&& q.cells.len() == p.cells.len()
    &&& forall|k: int|
        0 <= k < p.cells.len() ==> (#[trigger] q.cells[k]).color == p.cells[k].color
            && q.cells[k].members.len() == p.cells[k].members.len()
    &&& forall|u: int|
        0 <= u < n ==> q.cell_of_node[(#[trigger] sigma[u]) as int] == p.cell_of_node[u]
    &&& q.color_of_cell == p.color_of_cell
}

/// In a valid colouring the members of a cell are the nodes that
/// `cell_of_node` sends to it.
pub proof fn lemma_members_by_cell(p: ColouringView, k: int)
    requires
        p.wf(),
        0 <= k < p.cells.len(),
    ensures
        ascending(p.cells[k].members),
        forall|i: int|
            0 <= i < p.cells[k].members.len() ==> (#[trigger] p.cells[k].members[i]) < p.size,
        forall|u: int|
            0 <= u < p.size ==> (p.cells[k].members.contains(u as usize) <==> (
            #[trigger] p.cell_of_node[u]) == k),
{
    assert forall|u: int| 0 <= u < p.size implies (p.cells[k].members.contains(u as usize) <==> (
    #[trigger] p.cell_of_node[u]) == k) by {
        let j = p.cell_of_node[u] as int;
        assert(p.cells[j].members.contains(u as usize));
        if p.cells[k].members.contains(u as usize) {
            let i = choose|i: int|
                0 <= i < p.cells[k].members.len() && p.cells[k].members[i] == u as usize;
            assert(p.cell_of_node[p.cells[k].members[i] as int] == k);
        }
    }
}

/// The cells of twins hold nodes that go with each other.
pub proof fn lemma_twin_cells(
    p: ColouringView,
    q: ColouringView,
    sigma: Seq<usize>,
    tau: Seq<usize>,
    n: nat,
    k: int,
)
    requires
        inverse_pair(sigma, tau, n),
        twin(p, q, sigma, n),
        0 <= k < p.cells.len(),
    ensures
        image(p.cells[k].members, q.cells[k].members, sigma, n),
{
    reveal(twin);
    lemma_members_by_cell(p, k);
    lemma_members_by_cell(q, k);
    assert forall|u: int| 0 <= u < n implies (q.cells[k].members.contains(#[trigger] sigma[u])
        <==> p.cells[k].members.contains(u as usize)) by {
        assert(q.cell_of_node[sigma[u] as int] == p.cell_of_node[u]);
    }
}

/// The parts that `retain` makes of lists that go with each other, by lists
/// that hold nodes that go with each other, go with each other.
proof fn lemma_image_retain(
    a: Seq<usize>,
    b: Seq<usize>,
    sub_a: Seq<usize>,
    sub_b: Seq<usize>,
    sigma: Seq<usize>,
    tau: Seq<usize>,
    n: nat,
    wanted: bool,
)
    requires
        inverse_pair(sigma, tau, n),
        image(a, b, sigma, n),
        same_nodes(sub_a, sub_b, sigma, n),
    ensures
        image(retain(a, sub_a, wanted), retain(b, sub_b, wanted), sigma, n),
        retain(a, sub_a, wanted).len() == retain(b, sub_b, wanted).len(),
{
    let ra = retain(a, sub_a, wanted);
    let rb = retain(b, sub_b, wanted);
    lemma_retain_contains(a, sub_a, wanted);
    lemma_retain_contains(b, sub_b, wanted);
    lemma_retain_ascending(a, sub_a, wanted);
    lemma_retain_ascending(b, sub_b, wanted);
    assert forall|i: int| 0 <= i < ra.len() implies (#[trigger] ra[i]) < n by {
        assert(ra.contains(ra[i]));
        let x = choose|x: int| 0 <= x < a.len() && a[x] == ra[i];
        assert(a[x] < n);
    }
    assert forall|i: int| 0 <= i < rb.len() implies (#[trigger] rb[i]) < n by {
        assert(rb.contains(rb[i]));
        let x = choose|x: int| 0 <= x < b.len() && b[x] == rb[i];
        assert(b[x] < n);
    }
    assert forall|u: int| 0 <= u < n implies (rb.contains(#[trigger] sigma[u]) <==> ra.contains(
        u as usize,
    )) by {
        assert(b.contains(sigma[u]) <==> a.contains(u as usize));
        assert(sub_b.contains(sigma[u]) <==> sub_a.contains(u as usize));
    }
    lemma_image_len(ra, rb, sigma, tau, n);
}

/// Splitting twins by lists that hold nodes that go with each other gives
/// twins.
#[verifier::rlimit(50)]
pub proof fn lemma_twin_split(
    p: ColouringView,
    q: ColouringView,
    sigma: Seq<usize>,
    tau: Seq<usize>,
    n: nat,
    k: int,
    sub_a: Seq<usize>,
    sub_b: Seq<usize>,
)
    requires
        inverse_pair(sigma, tau, n),
        twin(p, q, sigma, n),
        p.can_split(k, sub_a),
        q.can_split(k, sub_b),
        same_nodes(sub_a, sub_b, sigma, n),
    ensures
        twin(p.split(k, sub_a), q.split(k, sub_b), sigma, n),
        q.split(k, sub_b).cells[k].color == p.split(k, sub_a).cells[k].color,
{
    reveal(twin);
    let ps = p.split(k, sub_a);
    let qs = q.split(k, sub_b);
    lemma_split_wf(p, k, sub_a);
    lemma_split_wf(q, k, sub_b);
    lemma_twin_cells(p, q, sigma, tau, n, k);
    lemma_image_retain(p.cells[k].members, q.cells[k].members, sub_a, sub_b, sigma, tau, n, true);
    lemma_image_retain(p.cells[k].members, q.cells[k].members, sub_a, sub_b, sigma, tau, n, false);
    assert(q.cells[k].color == p.cells[k].color);
    assert(qs.cells[k].color == ps.cells[k].color);
    assert forall|j: int| 0 <= j < ps.cells.len() implies (#[trigger] qs.cells[j]).color
        == ps.cells[j].color && qs.cells[j].members.len() == ps.cells[j].members.len() by {
        if j != k && j != p.cells.len() {
            assert(qs.cells[j] == q.cells[j]);
            assert(ps.cells[j] == p.cells[j]);
        }
    }
    assert forall|u: int| 0 <= u < n implies qs.cell_of_node[(#[trigger] sigma[u]) as int]
        == ps.cell_of_node[u] by {
        assert(sub_b.contains(sigma[u]) <==> sub_a.contains(u as usize));
        assert(q.cell_of_node[sigma[u] as int] == p.cell_of_node[u]);
    }
}

/// The entry of `b` that is the image of the entry `i` of `a`; it has the
/// same degree.
proof fn lemma_partner_image(
    e1: Seq<(usize, usize)>,
    e2: Seq<(usize, usize)>,
    src_a: Seq<usize>,
    src_b: Seq<usize>,
    a: Seq<usize>,
    b: Seq<usize>,
    sigma: Seq<usize>,
    tau: Seq<usize>,
    n: nat,
    i: int,
) -> (x: int)
    requires
        inverse_pair(sigma, tau, n),
        same_links(e1, e2, sigma, n),
        image(src_a, src_b, sigma, n),
        image(a, b, sigma, n),
        0 <= i < a.len(),
    ensures
        0 <= x < b.len(),
        b[x] == sigma[a[i] as int],
        degree(e2, src_b, b[x]) == degree(e1, src_a, a[i]),
{
    assert(a.contains(a[i]));
    assert(a[i] < n);
    assert(b.contains(sigma[a[i] as int]));
    lemma_image_degree(e1, e2, src_a, src_b, sigma, tau, n, a[i] as int);
    choose|x: int| 0 <= x < b.len() && b[x] == sigma[a[i] as int]
}

/// The entry of `a` whose image is the entry `j` of `b`; it has the same
/// degree.
proof fn lemma_partner_origin(
    e1: Seq<(usize, usize)>,
    e2: Seq<(usize, usize)>,
    src_a: Seq<usize>,
    src_b: Seq<usize>,
    a: Seq<usize>,
    b: Seq<usize>,
    sigma: Seq<usize>,
    tau: Seq<usize>,
    n: nat,
    j: int,
) -> (y: int)
    requires
        inverse_pair(sigma, tau, n),
        same_links(e1, e2, sigma, n),
        image(src_a, src_b, sigma, n),
        image(a, b, sigma, n),
        0 <= j < b.len(),
    ensures
        0 <= y < a.len(),
        a[y] == tau[b[j] as int],
        degree(e1, src_a, a[y]) == degree(e2, src_b, b[j]),
{
    assert(b.contains(b[j]));
    assert(b[j] < n);
    let u = tau[b[j] as int] as int;
    assert(sigma[u] == b[j]);
    assert(b.contains(sigma[u]));
    assert(a.contains(u as usize));
    lemma_image_degree(e1, e2, src_a, src_b, sigma, tau, n, u);
    choose|y: int| 0 <= y < a.len() && a[y] == tau[b[j] as int]
}

/// Lists that go with each other have the same least degree towards lists
/// that go with each other.
proof fn lemma_image_least(
    e1: Seq<(usize, usize)>,
    e2: Seq<(usize, usize)>,
    src_a: Seq<usize>,
    src_b: Seq<usize>,
    a: Seq<usize>,
    b: Seq<usize>,
    sigma: Seq<usize>,
    tau: Seq<usize>,
    n: nat,
)
    requires
        inverse_pair(sigma, tau, n),
        same_links(e1, e2, sigma, n),
        image(src_a, src_b, sigma, n),
        image(a, b, sigma, n),
        a.len() > 0,
    ensures
        least_degree(e2, src_b, b) == least_degree(e1, src_a, a),
{
    lemma_image_len(a, b, sigma, tau, n);
    lemma_least_degree(e1, src_a, a);
    lemma_least_degree(e2, src_b, b);
    let la = least_degree(e1, src_a, a);
    let lb = least_degree(e2, src_b, b);
    let i = choose|i: int| 0 <= i < a.len() && degree(e1, src_a, #[trigger] a[i]) == la;
    let x = lemma_partner_image(e1, e2, src_a, src_b, a, b, sigma, tau, n, i);
    assert(lb <= degree(e2, src_b, b[x]));
    let j = choose|j: int| 0 <= j < b.len() && degree(e2, src_b, #[trigger] b[j]) == lb;
    let y = lemma_partner_origin(e1, e2, src_a, src_b, a, b, sigma, tau, n, j);
    assert(la <= degree(e1, src_a, a[y]));
}

/// Lists that go with each other have one degree or not alike.
proof fn lemma_image_same_degree(
    e1: Seq<(usize, usize)>,
    e2: Seq<(usize, usize)>,
    src_a: Seq<usize>,
    src_b: Seq<usize>,
    a: Seq<usize>,
    b: Seq<usize>,
    sigma: Seq<usize>,
    tau: Seq<usize>,
    n: nat,
)
    requires
        inverse_pair(sigma, tau, n),
        same_links(e1, e2, sigma, n),
        image(src_a, src_b, sigma, n),
        image(a, b, sigma, n),
    ensures
        same_degree(e2, src_b, b) == same_degree(e1, src_a, a),
{
    if same_degree(e1, src_a, a) {
        assert forall|x: int, y: int| 0 <= x < b.len() && 0 <= y < b.len() implies degree(
            e2,
            src_b,
            #[trigger] b[x],
        ) == degree(e2, src_b, #[trigger] b[y]) by {
            let xa = lemma_partner_origin(e1, e2, src_a, src_b, a, b, sigma, tau, n, x);
            let ya = lemma_partner_origin(e1, e2, src_a, src_b, a, b, sigma, tau, n, y);
            assert(degree(e1, src_a, a[xa]) == degree(e1, src_a, a[ya]));
        }
    }
    if same_degree(e2, src_b, b) {
        assert forall|x: int, y: int| 0 <= x < a.len() && 0 <= y < a.len() implies degree(
            e1,
            src_a,
            #[trigger] a[x],
        ) == degree(e1, src_a, #[trigger] a[y]) by {
            let xb = lemma_partner_image(e1, e2, src_a, src_b, a, b, sigma, tau, n, x);
            let yb = lemma_partner_image(e1, e2, src_a, src_b, a, b, sigma, tau, n, y);
            assert(degree(e2, src_b, b[xb]) == degree(e2, src_b, b[yb]));
        }
    }
}

/// The nodes of any one degree in lists that go with each other go with
/// each other.
proof fn lemma_image_with_degree(
    e1: Seq<(usize, usize)>,
    e2: Seq<(usize, usize)>,
    src_a: Seq<usize>,
    src_b: Seq<usize>,
    a: Seq<usize>,
    b: Seq<usize>,
    sigma: Seq<usize>,
    tau: Seq<usize>,
    n: nat,
    d: nat,
)
    requires
        inverse_pair(sigma, tau, n),
        same_links(e1, e2, sigma, n),
        image(src_a, src_b, sigma, n),
        image(a, b, sigma, n),
    ensures
        same_nodes(with_degree(e1, src_a, a, d), with_degree(e2, src_b, b, d), sigma, n),
{
    lemma_with_degree(e1, src_a, a, d);
    lemma_with_degree(e2, src_b, b, d);
    assert forall|u: int| 0 <= u < n implies (with_degree(e2, src_b, b, d).contains(
        #[trigger] sigma[u],
    ) <==> with_degree(e1, src_a, a, d).contains(u as usize)) by {
        assert(b.contains(sigma[u]) <==> a.contains(u as usize));
        lemma_image_degree(e1, e2, src_a, src_b, sigma, tau, n, u);
    }
}

/// Whether two refinements under way go with each other: twin colourings,
/// the same colours pending, the same trace.
pub open spec fn twin_states(a: RefineState, b: RefineState, sigma: Seq<usize>, n: nat) -> bool {
    &&& twin(a.coloring, b.coloring, sigma, n)
    &&& a.pending == b.pending
    &&& a.trace == b.trace
    &&& state_ok(a)
    &&& state_ok(b)
}

/// Splitting a cell by degree takes states that go with each other to
/// states that go with each other.
#[verifier::rlimit(50)]
proof fn lemma_twin_split_by_degree(
    a: RefineState,
    b: RefineState,
    e1: Seq<(usize, usize)>,
    e2: Seq<(usize, usize)>,
    src_a: Seq<usize>,
    src_b: Seq<usize>,
    sigma: Seq<usize>,
    tau: Seq<usize>,
    n: nat,
    k: int,
)
    requires
        inverse_pair(sigma, tau, n),
        same_links(e1, e2, sigma, n),
        twin_states(a, b, sigma, n),
        image(src_a, src_b, sigma, n),
        0 <= k < a.coloring.cells.len(),
    ensures
        twin_states(
            split_by_degree(a, e1, src_a, k),
            split_by_degree(b, e2, src_b, k),
            sigma,
            n,
        ),
    decreases a.coloring.cells[k].members.len(),
{
    reveal(twin);
    let ma = a.coloring.cells[k].members;
    let mb = b.coloring.cells[k].members;
    lemma_twin_cells(a.coloring, b.coloring, sigma, tau, n, k);
    assert(ma.len() > 0);
    let d = least_degree(e1, src_a, ma);
    lemma_image_least(e1, e2, src_a, src_b, ma, mb, sigma, tau, n);
    lemma_image_same_degree(e1, e2, src_a, src_b, ma, mb, sigma, tau, n);
    lemma_image_with_degree(e1, e2, src_a, src_b, ma, mb, sigma, tau, n, d);
    if !same_degree(e1, src_a, ma) {
        let sub_a = with_degree(e1, src_a, ma, d);
        let sub_b = with_degree(e2, src_b, mb, d);
        lemma_split_step(a, e1, src_a, k);
        lemma_split_step(b, e2, src_b, k);
        lemma_twin_split(a.coloring, b.coloring, sigma, tau, n, k, sub_a, sub_b);
        let qa = a.coloring.split(k, sub_a);
        let qb = b.coloring.split(k, sub_b);
        let ca = qa.cells[k].color;
        let na = RefineState {
            coloring: qa,
            pending: a.pending.update(ca as int, true),
            trace: a.trace.push(ca),
        };
        let nb = RefineState {
            coloring: qb,
            pending: b.pending.update(ca as int, true),
            trace: b.trace.push(ca),
        };
        lemma_twin_split_by_degree(na, nb, e1, e2, src_a, src_b, sigma, tau, n, k);
    }
}

/// A sweep takes states that go with each other to states that go with
/// each other.
proof fn lemma_twin_sweep(
    a: RefineState,
    b: RefineState,
    e1: Seq<(usize, usize)>,
    e2: Seq<(usize, usize)>,
    src_a: Seq<usize>,
    src_b: Seq<usize>,
    sigma: Seq<usize>,
    tau: Seq<usize>,
    n: nat,
    c: nat,
    m: nat,
)
    requires
        inverse_pair(sigma, tau, n),
        same_links(e1, e2, sigma, n),
        twin_states(a, b, sigma, n),
        image(src_a, src_b, sigma, n),
    ensures
        twin_states(sweep(a, e1, src_a, c, m), sweep(b, e2, src_b, c, m), sigma, n),
    decreases m - c,
{
    reveal(twin);
    if c < m {
        if a.coloring.color_of_cell.dom().contains(c as usize) {
            let k = a.coloring.color_of_cell[c as usize] as int;
            lemma_twin_split_by_degree(a, b, e1, e2, src_a, src_b, sigma, tau, n, k);
            lemma_twin_sweep(
                split_by_degree(a, e1, src_a, k),
                split_by_degree(b, e2, src_b, k),
                e1,
                e2,
                src_a,
                src_b,
                sigma,
                tau,
                n,
                c + 1,
                m,
            );
        } else {
            lemma_twin_sweep(a, b, e1, e2, src_a, src_b, sigma, tau, n, c + 1, m);
        }
    }
}

/// Refinement takes states that go with each other to states that go with
/// each other.
#[verifier::rlimit(50)]
proof fn lemma_twin_refine_from(
    a: RefineState,
    b: RefineState,
    e1: Seq<(usize, usize)>,
    e2: Seq<(usize, usize)>,
    sigma: Seq<usize>,
    tau: Seq<usize>,
    n: nat,
)
    requires
        inverse_pair(sigma, tau, n),
        same_links(e1, e2, sigma, n),
        twin_states(a, b, sigma, n),
    ensures
        twin_states(refine_from(a, e1), refine_from(b, e2), sigma, n),
    decreases a.coloring.size - a.coloring.cells.len(), count_pending(a.pending),
{
    reveal(twin);
    if first_pending(a.pending, 0) < a.pending.len() {
        let s = first_pending(a.pending, 0);
        lemma_first_pending(a.pending, 0);
        lemma_count_pending_clear(a.pending, s);
        lemma_popped_ok(a);
        lemma_popped_ok(b);
        let k = a.coloring.color_of_cell[s as usize] as int;
        lemma_twin_cells(a.coloring, b.coloring, sigma, tau, n, k);
        lemma_sweep(popped(a), e1, source(a), 0, n);
        lemma_twin_sweep(popped(a), popped(b), e1, e2, source(a), source(b), sigma, tau, n, 0, n);
        lemma_twin_refine_from(
            sweep(popped(a), e1, source(a), 0, n),
            sweep(popped(b), e2, source(b), 0, n),
            e1,
            e2,
            sigma,
            tau,
            n,
        );
    }
}

/// Refining twins gives twins, with the same trace.
pub proof fn lemma_twin_refine(
    p: ColouringView,
    q: ColouringView,
    e1: Seq<(usize, usize)>,
    e2: Seq<(usize, usize)>,
    sigma: Seq<usize>,
    tau: Seq<usize>,
    n: nat,
)
    requires
        inverse_pair(sigma, tau, n),
        same_links(e1, e2, sigma, n),
        twin(p, q, sigma, n),
    ensures
        twin(refine(p, e1).0, refine(q, e2).0, sigma, n),
        refine(p, e1).1 == refine(q, e2).1,
{
    reveal(twin);
    if !p.is_discrete() {
        assert(start(p).pending =~= start(q).pending);
        lemma_twin_refine_from(start(p), start(q), e1, e2, sigma, tau, n);
    }
}

/// Lists of cells with the same sizes have their first large cell at the
/// same place.
proof fn lemma_first_large_same(a: Seq<CellView>, b: Seq<CellView>, i: int)
    requires
        0 <= i,
        a.len() == b.len(),
        forall|k: int| 0 <= k < a.len() ==> (#[trigger] b[k]).members.len() == a[k].members.len(),
    ensures
        first_large_from(a, i) == first_large_from(b, i),
    decreases a.len() - i,
{
    if i < a.len() {
        assert(b[i].members.len() == a[i].members.len());
        lemma_first_large_same(a, b, i + 1);
    }
}

/// The branches of twins by nodes that go with each other are twins and
/// have the same invariant.
#[verifier::rlimit(50)]
pub proof fn lemma_twin_branch(
    p: ColouringView,
    q: ColouringView,
    e1: Seq<(usize, usize)>,
    e2: Seq<(usize, usize)>,
    sigma: Seq<usize>,
    tau: Seq<usize>,
    n: nat,
    u: int,
)
    requires
        inverse_pair(sigma, tau, n),
        same_links(e1, e2, sigma, n),
        twin(p, q, sigma, n),
        !p.is_discrete(),
        0 <= u < n,
        p.cells[p.target()].members.contains(u as usize),
    ensures
        q.target() == p.target(),
        !q.is_discrete(),
        q.cells[q.target()].members.contains(sigma[u]),
        twin(branch_coloring(p, e1, u as usize), branch_coloring(q, e2, sigma[u]), sigma, n),
        branch_kdim(p, e1, u as usize) == branch_kdim(q, e2, sigma[u]),
{
    reveal(twin);
    lemma_first_large_same(p.cells, q.cells, 0);
    lemma_target(p);
    let k = p.target();
    lemma_twin_cells(p, q, sigma, tau, n, k);
    lemma_can_individualize(p, u as usize);
    lemma_can_individualize(q, sigma[u]);
    let sub_a = seq![u as usize];
    let sub_b = seq![sigma[u]];
    assert forall|w: int| 0 <= w < n implies (sub_b.contains(#[trigger] sigma[w])
        <==> sub_a.contains(w as usize)) by {
        if sub_b.contains(sigma[w]) {
            let i = choose|i: int| 0 <= i < sub_b.len() && sub_b[i] == sigma[w];
            assert(sigma[w] == sigma[u]);
            assert(tau[sigma[w] as int] == w);
            assert(tau[sigma[u] as int] == u);
            assert(sub_a[0] == w as usize);
        }
        if sub_a.contains(w as usize) {
            let i = choose|i: int| 0 <= i < sub_a.len() && sub_a[i] == w as usize;
            assert(w == u);
            assert(sub_b[0] == sigma[w]);
        }
    }
    lemma_twin_split(p, q, sigma, tau, n, k, sub_a, sub_b);
    lemma_twin_refine(p.split(k, sub_a), q.split(k, sub_b), e1, e2, sigma, tau, n);
}

/// Whether `p` has a twin among `others`.
pub open spec fn has_twin(
    p: ColouringView,
    others: Seq<ColouringView>,
    sigma: Seq<usize>,
    n: nat,
) -> bool {
    exists|j: int| 0 <= j < others.len() && twin(p, #[trigger] others[j], sigma, n)
}

/// Whether `q` is the twin of one of `others`.
pub open spec fn has_origin(
    q: ColouringView,
    others: Seq<ColouringView>,
    sigma: Seq<usize>,
    n: nat,
) -> bool {
    exists|j: int| 0 <= j < others.len() && twin(#[trigger] others[j], q, sigma, n)
}

/// Whether the colourings of `a` and those of `b` go with each other: each
/// of `a` has a twin in `b`, and each of `b` is the twin of one of `a`.
pub open spec fn matched(
    a: Seq<ColouringView>,
    b: Seq<ColouringView>,
    sigma: Seq<usize>,
    n: nat,
) -> bool {
    &&& forall|i: int| 0 <= i < a.len() ==> has_twin(#[trigger] a[i], b, sigma, n)
    &&& forall|j: int| 0 <= j < b.len() ==> has_origin(#[trigger] b[j], a, sigma, n)
}

/// Whether the branch `x` has a twin with the same invariant among `items`.
pub open spec fn branch_has_twin(x: Branch, items: Seq<Branch>, sigma: Seq<usize>, n: nat) -> bool {
    exists|t: int|
        0 <= t < items.len() && twin(x.coloring, (#[trigger] items[t]).coloring, sigma, n)
            && items[t].kdim == x.kdim
}

/// Whether the branch `y` is the twin, with the same invariant, of one of
/// `items`.
pub open spec fn branch_has_origin(
    y: Branch,
    items: Seq<Branch>,
    sigma: Seq<usize>,
    n: nat,
) -> bool {
    exists|t: int|
        0 <= t < items.len() && twin((#[trigger] items[t]).coloring, y.coloring, sigma, n)
            && items[t].kdim == y.kdim
}

/// Whether the branches of `a` and those of `b` go with each other.
pub open spec fn matched_branches(
    a: Seq<Branch>,
    b: Seq<Branch>,
    sigma: Seq<usize>,
    n: nat,
) -> bool {
    &&& forall|i: int| 0 <= i < a.len() ==> branch_has_twin(#[trigger] a[i], b, sigma, n)
    &&& forall|j: int| 0 <= j < b.len() ==> branch_has_origin(#[trigger] b[j], a, sigma, n)
}

/// The branch of the first level that goes with a branch of the second.
#[verifier::rlimit(50)]
proof fn lemma_branch_twin_exists(
    nodes1: Seq<ColouringView>,
    nodes2: Seq<ColouringView>,
    e1: Seq<(usize, usize)>,
    e2: Seq<(usize, usize)>,
    sigma: Seq<usize>,
    tau: Seq<usize>,
    n: nat,
    count: nat,
    x: Branch,
)
    requires
        inverse_pair(sigma, tau, n),
        same_links(e1, e2, sigma, n),
        level(nodes1, n, count),
        level(nodes2, n, count),
        matched(nodes1, nodes2, sigma, n),
        is_branch(nodes1, e1, x),
    ensures
        branch_has_twin(x, level_branches(nodes2, e2, 0), sigma, n),
{
    let (j, i) = choose|j: int, i: int|
        0 <= j < nodes1.len() && 0 <= i < node_branches(nodes1[j], e1).len() && x
            == #[trigger] node_branches(nodes1[j], e1)[i];
    let p = nodes1[j];
    assert(has_twin(nodes1[j], nodes2, sigma, n));
    let j2 = choose|j2: int| 0 <= j2 < nodes2.len() && twin(p, #[trigger] nodes2[j2], sigma, n);
    let q = nodes2[j2];
    let ms = p.cells[p.target()].members;
    let u = ms[i] as int;
    assert(ms.contains(ms[i]));
    assert(ms[i] < n) by {
        lemma_target(p);
        lemma_members_by_cell(p, p.target());
    }
    lemma_twin_branch(p, q, e1, e2, sigma, tau, n, u);
    let ms2 = q.cells[q.target()].members;
    let i2 = choose|i2: int| 0 <= i2 < ms2.len() && ms2[i2] == sigma[u];
    let y = node_branches(q, e2)[i2];
    lemma_level_branches(nodes2, e2, 0);
    let all2 = level_branches(nodes2, e2, 0);
    assert(all2.contains(node_branches(nodes2[j2], e2)[i2]));
    let t = choose|t: int| 0 <= t < all2.len() && all2[t] == y;
    assert(twin(x.coloring, all2[t].coloring, sigma, n) && all2[t].kdim == x.kdim);
}

/// The branch of a colouring by a node is the twin of the branch of its
/// origin by the origin of the node.
#[verifier::rlimit(50)]
proof fn lemma_twin_branch_back(
    p: ColouringView,
    q: ColouringView,
    e1: Seq<(usize, usize)>,
    e2: Seq<(usize, usize)>,
    sigma: Seq<usize>,
    tau: Seq<usize>,
    n: nat,
    w: int,
)
    requires
        inverse_pair(sigma, tau, n),
        same_links(e1, e2, sigma, n),
        twin(p, q, sigma, n),
        !q.is_discrete(),
        0 <= w < n,
        q.cells[q.target()].members.contains(w as usize),
    ensures
        !p.is_discrete(),
        p.cells[p.target()].members.contains(tau[w]),
        twin(branch_coloring(p, e1, tau[w]), branch_coloring(q, e2, w as usize), sigma, n),
        branch_kdim(p, e1, tau[w]) == branch_kdim(q, e2, w as usize),
{
    let u = tau[w] as int;
    assert(sigma[u] == w);
    assert(!p.is_discrete() && q.target() == p.target() && p.cells[p.target()].members.contains(
        u as usize,
    )) by {
        reveal(twin);
        lemma_first_large_same(p.cells, q.cells, 0);
        lemma_target(p);
        lemma_twin_cells(p, q, sigma, tau, n, p.target());
        assert(q.cells[p.target()].members.contains(sigma[u]));
    }
    lemma_twin_branch(p, q, e1, e2, sigma, tau, n, u);
}

/// The branch of the first level that a branch of the second goes with.
#[verifier::rlimit(50)]
proof fn lemma_branch_origin_exists(
    nodes1: Seq<ColouringView>,
    nodes2: Seq<ColouringView>,
    e1: Seq<(usize, usize)>,
    e2: Seq<(usize, usize)>,
    sigma: Seq<usize>,
    tau: Seq<usize>,
    n: nat,
    count: nat,
    y: Branch,
)
    requires
        inverse_pair(sigma, tau, n),
        same_links(e1, e2, sigma, n),
        level(nodes1, n, count),
        level(nodes2, n, count),
        matched(nodes1, nodes2, sigma, n),
        is_branch(nodes2, e2, y),
    ensures
        branch_has_origin(y, level_branches(nodes1, e1, 0), sigma, n),
{
    let (j2, i2) = choose|j2: int, i2: int|
        0 <= j2 < nodes2.len() && 0 <= i2 < node_branches(nodes2[j2], e2).len() && y
            == #[trigger] node_branches(nodes2[j2], e2)[i2];
    let q = nodes2[j2];
    assert(has_origin(nodes2[j2], nodes1, sigma, n));
    let j = choose|j: int| 0 <= j < nodes1.len() && twin(#[trigger] nodes1[j], q, sigma, n);
    let p = nodes1[j];
    let ms2 = q.cells[q.target()].members;
    let w = ms2[i2] as int;
    assert(ms2.contains(ms2[i2]));
    assert(ms2[i2] < n) by {
        lemma_target(q);
        lemma_members_by_cell(q, q.target());
    }
    lemma_twin_branch_back(p, q, e1, e2, sigma, tau, n, w);
    let ms = p.cells[p.target()].members;
    let i = choose|i: int| 0 <= i < ms.len() && ms[i] == tau[w];
    let x = node_branches(p, e1)[i];
    lemma_level_branches(nodes1, e1, 0);
    let all1 = level_branches(nodes1, e1, 0);
    assert(all1.contains(node_branches(nodes1[j], e1)[i]));
    let t = choose|t: int| 0 <= t < all1.len() && all1[t] == x;
    assert(twin(all1[t].coloring, y.coloring, sigma, n) && all1[t].kdim == y.kdim);
}

/// The branches of levels that go with each other go with each other.
proof fn lemma_matched_level_branches(
    nodes1: Seq<ColouringView>,
    nodes2: Seq<ColouringView>,
    e1: Seq<(usize, usize)>,
    e2: Seq<(usize, usize)>,
    sigma: Seq<usize>,
    tau: Seq<usize>,
    n: nat,
    count: nat,
)
    requires
        inverse_pair(sigma, tau, n),
        same_links(e1, e2, sigma, n),
        level(nodes1, n, count),
        level(nodes2, n, count),
        matched(nodes1, nodes2, sigma, n),
    ensures
        matched_branches(
            level_branches(nodes1, e1, 0),
            level_branches(nodes2, e2, 0),
            sigma,
            n,
        ),
{
    let all1 = level_branches(nodes1, e1, 0);
    let all2 = level_branches(nodes2, e2, 0);
    lemma_level_branches(nodes1, e1, 0);
    lemma_level_branches(nodes2, e2, 0);
    assert forall|i: int| 0 <= i < all1.len() implies branch_has_twin(
        #[trigger] all1[i],
        all2,
        sigma,
        n,
    ) by {
        lemma_branch_twin_exists(nodes1, nodes2, e1, e2, sigma, tau, n, count, all1[i]);
    }
    assert forall|j: int| 0 <= j < all2.len() implies branch_has_origin(
        #[trigger] all2[j],
        all1,
        sigma,
        n,
    ) by {
        lemma_branch_origin_exists(nodes1, nodes2, e1, e2, sigma, tau, n, count, all2[j]);
    }
}

/// Frontiers that keep the best of branches that go with each other have
/// the same invariant and keep colourings that go with each other.
#[verifier::rlimit(50)]
proof fn lemma_matched_frontiers(
    f1: Frontier,
    f2: Frontier,
    items1: Seq<Branch>,
    items2: Seq<Branch>,
    sigma: Seq<usize>,
    n: nat,
)
    requires
        matched_branches(items1, items2, sigma, n),
        keeps_best(f1, items1, items1.len()),
        keeps_best(f2, items2, items2.len()),
        items1.len() > 0,
        items2.len() > 0,
    ensures
        f1.best == f2.best,
        matched(f1.nodes, f2.nodes, sigma, n),
{
    // The best of the one side is met on the other, and the other way round.
    assert(kept_from(f1, items1, items1.len(), 0));
    let i1 = choose|i: int|
        0 <= i < items1.len() && (#[trigger] items1[i]).coloring == f1.nodes[0] && items1[i].kdim
            == f1.best;
    assert(branch_has_twin(items1[i1], items2, sigma, n));
    let t2 = choose|t: int|
        0 <= t < items2.len() && twin(
            items1[i1].coloring,
            (#[trigger] items2[t]).coloring,
            sigma,
            n,
        ) && items2[t].kdim == items1[i1].kdim;
    assert(kdim_rank(f2.best, items2[t2].kdim) >= 0);
    assert(kept_from(f2, items2, items2.len(), 0));
    let i2 = choose|i: int|
        0 <= i < items2.len() && (#[trigger] items2[i]).coloring == f2.nodes[0] && items2[i].kdim
            == f2.best;
    assert(branch_has_origin(items2[i2], items1, sigma, n));
    let t1 = choose|t: int|
        0 <= t < items1.len() && twin(
            (#[trigger] items1[t]).coloring,
            items2[i2].coloring,
            sigma,
            n,
        ) && items1[t].kdim == items2[i2].kdim;
    assert(kdim_rank(f1.best, items1[t1].kdim) >= 0);
    lemma_kdim_rank_antisymmetric(f1.best, f2.best);
    lemma_kdim_rank_zero(f1.best, f2.best);
    assert(f1.best == f2.best);
    assert forall|x: int| 0 <= x < f1.nodes.len() implies has_twin(
        #[trigger] f1.nodes[x],
        f2.nodes,
        sigma,
        n,
    ) by {
        assert(kept_from(f1, items1, items1.len(), x));
        let i = choose|i: int|
            0 <= i < items1.len() && (#[trigger] items1[i]).coloring == f1.nodes[x]
                && items1[i].kdim == f1.best;
        assert(branch_has_twin(items1[i], items2, sigma, n));
        let t = choose|t: int|
            0 <= t < items2.len() && twin(
                items1[i].coloring,
                (#[trigger] items2[t]).coloring,
                sigma,
                n,
            ) && items2[t].kdim == items1[i].kdim;
        assert(f2.nodes.contains(items2[t].coloring));
        let y = choose|y: int| 0 <= y < f2.nodes.len() && f2.nodes[y] == items2[t].coloring;
        assert(twin(f1.nodes[x], f2.nodes[y], sigma, n));
    }
    assert forall|y: int| 0 <= y < f2.nodes.len() implies has_origin(
        #[trigger] f2.nodes[y],
        f1.nodes,
        sigma,
        n,
    ) by {
        assert(kept_from(f2, items2, items2.len(), y));
        let i = choose|i: int|
            0 <= i < items2.len() && (#[trigger] items2[i]).coloring == f2.nodes[y]
                && items2[i].kdim == f2.best;
        assert(branch_has_origin(items2[i], items1, sigma, n));
        let t = choose|t: int|
            0 <= t < items1.len() && twin(
                (#[trigger] items1[t]).coloring,
                items2[i].coloring,
                sigma,
                n,
            ) && items1[t].kdim == items2[i].kdim;
        assert(f1.nodes.contains(items1[t].coloring));
        let x = choose|x: int| 0 <= x < f1.nodes.len() && f1.nodes[x] == items1[t].coloring;
        assert(twin(f1.nodes[x], f2.nodes[y], sigma, n));
    }
}

/// Every branch of a level has an invariant with at least one cell, and a
/// level has branches.
proof fn lemma_level_branches_count(
    nodes: Seq<ColouringView>,
    edges: Seq<(usize, usize)>,
    n: nat,
    count: nat,
)
    requires
        level(nodes, n, count),
        nodes.len() > 0,
    ensures
        level_branches(nodes, edges, 0).len() > 0,
        forall|t: int|
            0 <= t < level_branches(nodes, edges, 0).len() ==> (#[trigger] level_branches(
                nodes,
                edges,
                0,
            )[t]).kdim.0 > 0,
{
    let all = level_branches(nodes, edges, 0);
    lemma_level_branches(nodes, edges, 0);
    lemma_target(nodes[0]);
    assert(all.contains(node_branches(nodes[0], edges)[0]));
    assert forall|t: int| 0 <= t < all.len() implies (#[trigger] all[t]).kdim.0 > 0 by {
        assert(is_branch(nodes, edges, all[t]));
        let (j, i) = choose|j: int, i: int|
            0 <= j < nodes.len() && 0 <= i < node_branches(nodes[j], edges).len() && all[t]
                == #[trigger] node_branches(nodes[j], edges)[i];
        let p = nodes[j];
        let ms = p.cells[p.target()].members;
        assert(ms.contains(ms[i]));
        lemma_branch(p, edges, ms[i]);
    }
}

/// Levels that go with each other lead to frontiers with the same invariant
/// that keep colourings that go with each other.
#[verifier::rlimit(50)]
proof fn lemma_twin_level(
    nodes1: Seq<ColouringView>,
    nodes2: Seq<ColouringView>,
    e1: Seq<(usize, usize)>,
    e2: Seq<(usize, usize)>,
    sigma: Seq<usize>,
    tau: Seq<usize>,
    n: nat,
    count: nat,
)
    requires
        inverse_pair(sigma, tau, n),
        same_links(e1, e2, sigma, n),
        level(nodes1, n, count),
        level(nodes2, n, count),
        nodes1.len() > 0,
        nodes2.len() > 0,
        matched(nodes1, nodes2, sigma, n),
    ensures
        expand_level(empty_frontier(), nodes1, e1, 0).best == expand_level(
            empty_frontier(),
            nodes2,
            e2,
            0,
        ).best,
        matched(
            expand_level(empty_frontier(), nodes1, e1, 0).nodes,
            expand_level(empty_frontier(), nodes2, e2, 0).nodes,
            sigma,
            n,
        ),
{
    let all1 = level_branches(nodes1, e1, 0);
    let all2 = level_branches(nodes2, e2, 0);
    lemma_expand_level_fold(empty_frontier(), nodes1, e1, 0);
    lemma_expand_level_fold(empty_frontier(), nodes2, e2, 0);
    lemma_level_branches_count(nodes1, e1, n, count);
    lemma_level_branches_count(nodes2, e2, n, count);
    lemma_hold_all_keeps_best(empty_frontier(), all1, 0);
    lemma_hold_all_keeps_best(empty_frontier(), all2, 0);
    lemma_matched_level_branches(nodes1, nodes2, e1, e2, sigma, tau, n, count);
    lemma_matched_frontiers(
        hold_all(empty_frontier(), all1, 0),
        hold_all(empty_frontier(), all2, 0),
        all1,
        all2,
        sigma,
        n,
    );
}

/// Searches from levels that go with each other end with colourings that go
/// with each other.
#[verifier::rlimit(50)]
proof fn lemma_twin_search(
    nodes1: Seq<ColouringView>,
    nodes2: Seq<ColouringView>,
    e1: Seq<(usize, usize)>,
    e2: Seq<(usize, usize)>,
    sigma: Seq<usize>,
    tau: Seq<usize>,
    n: nat,
    count: nat,
)
    requires
        inverse_pair(sigma, tau, n),
        same_links(e1, e2, sigma, n),
        level(nodes1, n, count),
        level(nodes2, n, count),
        nodes1.len() > 0,
        nodes2.len() > 0,
        matched(nodes1, nodes2, sigma, n),
    ensures
        matched(search(nodes1, e1, count, n), search(nodes2, e2, count, n), sigma, n),
    decreases n - count,
{
    let f1 = expand_level(empty_frontier(), nodes1, e1, 0);
    let f2 = expand_level(empty_frontier(), nodes2, e2, 0);
    lemma_twin_level(nodes1, nodes2, e1, e2, sigma, tau, n, count);
    lemma_expand_level(empty_frontier(), nodes1, e1, 0, n, count);
    lemma_expand_level(empty_frontier(), nodes2, e2, 0, n, count);
    if count < f1.best.0 < n {
        assert(level(f1.nodes, n, f1.best.0 as nat));
        assert(level(f2.nodes, n, f1.best.0 as nat));
        lemma_twin_search(f1.nodes, f2.nodes, e1, e2, sigma, tau, n, f1.best.0 as nat);
    }
}

/// Graphs with as many edges between any two different nodes have the same
/// row for every node.
proof fn lemma_last_link_by_links(e1: Seq<(usize, usize)>, e2: Seq<(usize, usize)>, i: nat, j: nat)
    requires
        forall|a: usize, b: usize| a < b < j ==> links(e1, a, b) == links(e2, a, b),
        j <= usize::MAX,
    ensures
        last_link(e1, i, j) == last_link(e2, i, j),
        row_upto(e1, i, j) == row_upto(e2, i, j),
    decreases j,
{
    if j > i + 1 {
        lemma_last_link_by_links(e1, e2, i, (j - 1) as nat);
        assert(links(e1, i as usize, (j - 1) as usize) == links(e2, i as usize, (j - 1) as usize));
    }
}

/// Graphs with as many edges between any two different nodes have the same
/// rows.
proof fn lemma_rows_by_links(e1: Seq<(usize, usize)>, e2: Seq<(usize, usize)>, n: nat, i: nat)
    requires
        forall|a: usize, b: usize| a < b < n ==> links(e1, a, b) == links(e2, a, b),
        n <= usize::MAX,
    ensures
        rows_upto(e1, n, i) == rows_upto(e2, n, i),
    decreases i,
{
    if i > 0 {
        lemma_rows_by_links(e1, e2, n, (i - 1) as nat);
        lemma_last_link_by_links(e1, e2, (i - 1) as nat, n);
    }
}

/// Graphs on `n` nodes with as many edges between any two different nodes
/// have the same descriptor.
pub proof fn lemma_descriptor_by_links(n: nat, e1: Seq<(usize, usize)>, e2: Seq<(usize, usize)>)
    requires
        n <= usize::MAX,
        forall|a: usize, b: usize| a < b < n ==> links(e1, a, b) == links(e2, a, b),
    ensures
        descriptor(n, e1) == descriptor(n, e2),
{
    if n > 0 {
        lemma_rows_by_links(e1, e2, n, (n - 1) as nat);
    } else {
        lemma_rows_by_links(e1, e2, n, 0);
    }
}

/// The image of a node has the colour of the node in the twin.
proof fn lemma_twin_colors(p: ColouringView, q: ColouringView, sigma: Seq<usize>, n: nat)
    requires
        twin(p, q, sigma, n),
        sigma.len() == n,
        forall|u: int| 0 <= u < n ==> (#[trigger] sigma[u]) < n,
    ensures
        p.wf(),
        q.wf(),
        p.size == n,
        q.size == n,
        q.is_discrete() == p.is_discrete(),
        forall|u: int|
            0 <= u < n ==> q.color_of_node[(#[trigger] sigma[u]) as int] == p.color_of_node[u],
{
    reveal(twin);
    lemma_node_colors(p);
    lemma_node_colors(q);
    assert forall|u: int| 0 <= u < n implies q.color_of_node[(#[trigger] sigma[u]) as int]
        == p.color_of_node[u] by {
        let k = p.cell_of_node[u] as int;
        assert(q.cell_of_node[sigma[u] as int] == k);
        assert(q.cells[k].color == p.cells[k].color);
    }
}

/// Discrete twins give the two graphs the same descriptor.
#[verifier::rlimit(50)]
proof fn lemma_twin_leaf(
    p: ColouringView,
    q: ColouringView,
    e1: Seq<(usize, usize)>,
    e2: Seq<(usize, usize)>,
    sigma: Seq<usize>,
    tau: Seq<usize>,
    n: nat,
)
    requires
        inverse_pair(sigma, tau, n),
        same_links(e1, e2, sigma, n),
        valid_edges(e1, n),
        valid_edges(e2, n),
        twin(p, q, sigma, n),
        p.is_discrete(),
    ensures
        leaf_descriptor(p, e1) == leaf_descriptor(q, e2),
{
    lemma_twin_colors(p, q, sigma, n);
    lemma_discrete_injective(p);
    lemma_discrete_injective(q);
    let c1 = p.color_of_node;
    let c2 = q.color_of_node;
    let r1 = relabel(e1, c1);
    let r2 = relabel(e2, c2);
    assert forall|a: usize, b: usize| a < b < n implies links(r1, a, b) == links(r2, a, b) by {
        let ua = lemma_discrete_onto(p, a as int);
        let ub = lemma_discrete_onto(p, b as int);
        lemma_relabel_links(e1, c1, n, ua, ub);
        lemma_relabel_links(e2, c2, n, sigma[ua] as int, sigma[ub] as int);
        assert(c2[sigma[ua] as int] == c1[ua]);
        assert(c2[sigma[ub] as int] == c1[ub]);
        assert(links(e2, sigma[ua], sigma[ub]) == links(e1, ua as usize, ub as usize));
    }
    lemma_descriptor_by_links(n, r1, r2);
}

/// None of the first `k + 1` leaves has a descriptor behind the greatest.
proof fn lemma_max_descriptor_upper(
    leaves: Seq<ColouringView>,
    edges: Seq<(usize, usize)>,
    k: nat,
    i: int,
)
    requires
        0 <= i <= k,
    ensures
        lex_rank(leaf_descriptor(leaves[i], edges), max_descriptor(leaves, edges, k), 0) <= 0,
    decreases k,
{
    let d = leaf_descriptor(leaves[k as int], edges);
    if k == 0 {
        lemma_lex_rank_zero(d, d, 0);
    } else {
        let rest = max_descriptor(leaves, edges, (k - 1) as nat);
        if i < k {
            lemma_max_descriptor_upper(leaves, edges, (k - 1) as nat, i);
            if lex_rank(d, rest, 0) > 0 {
                lemma_lex_rank_antisymmetric(d, rest, 0);
                lemma_lex_rank_transitive(leaf_descriptor(leaves[i], edges), rest, d, 0);
            }
        } else {
            lemma_lex_rank_zero(d, d, 0);
        }
    }
}

/// Discrete colourings that go with each other have the same greatest
/// descriptor.
proof fn lemma_twin_max(
    leaves1: Seq<ColouringView>,
    leaves2: Seq<ColouringView>,
    e1: Seq<(usize, usize)>,
    e2: Seq<(usize, usize)>,
    sigma: Seq<usize>,
    tau: Seq<usize>,
    n: nat,
)
    requires
        inverse_pair(sigma, tau, n),
        same_links(e1, e2, sigma, n),
        valid_edges(e1, n),
        valid_edges(e2, n),
        leaves1.len() > 0,
        leaves2.len() > 0,
        matched(leaves1, leaves2, sigma, n),
        forall|i: int| 0 <= i < leaves1.len() ==> (#[trigger] leaves1[i]).is_discrete(),
        forall|i: int| 0 <= i < leaves2.len() ==> (#[trigger] leaves2[i]).is_discrete(),
    ensures
        max_descriptor(leaves1, e1, (leaves1.len() - 1) as nat) == max_descriptor(
            leaves2,
            e2,
            (leaves2.len() - 1) as nat,
        ),
{
    let k1 = (leaves1.len() - 1) as nat;
    let k2 = (leaves2.len() - 1) as nat;
    let m1 = max_descriptor(leaves1, e1, k1);
    let m2 = max_descriptor(leaves2, e2, k2);
    let i1 = lemma_max_descriptor_attained(leaves1, e1, k1);
    assert(has_twin(leaves1[i1], leaves2, sigma, n));
    let j2 = choose|j: int| 0 <= j < leaves2.len() && twin(leaves1[i1], #[trigger] leaves2[j], sigma, n);
    lemma_twin_leaf(leaves1[i1], leaves2[j2], e1, e2, sigma, tau, n);
    lemma_max_descriptor_upper(leaves2, e2, k2, j2);
    let i2 = lemma_max_descriptor_attained(leaves2, e2, k2);
    assert(has_origin(leaves2[i2], leaves1, sigma, n));
    let j1 = choose|j: int| 0 <= j < leaves1.len() && twin(#[trigger] leaves1[j], leaves2[i2], sigma, n);
    assert(leaves1[j1].is_discrete());
    lemma_twin_leaf(leaves1[j1], leaves2[i2], e1, e2, sigma, tau, n);
    lemma_max_descriptor_upper(leaves1, e1, k1, j1);
    lemma_lex_rank_antisymmetric(m1, m2, 0);
    lemma_lex_rank_zero(m1, m2, 0);
    assert(m1 =~= m2);
}

/// The colourings that give all nodes one colour are twins.
proof fn lemma_twin_uniform(sigma: Seq<usize>, tau: Seq<usize>, n: nat)
    requires
        inverse_pair(sigma, tau, n),
    ensures
        twin(ColouringView::uniform(n), ColouringView::uniform(n), sigma, n),
{
    reveal(twin);
    lemma_uniform_wf(n);
}

/// The key with the inverse of the permutation at hand: graphs that a
/// permutation of the nodes maps onto each other have the same key.
#[verifier::rlimit(50)]
proof fn lemma_key_invariant_with(
    n: nat,
    e1: Seq<(usize, usize)>,
    e2: Seq<(usize, usize)>,
    sigma: Seq<usize>,
    tau: Seq<usize>,
)
    requires
        inverse_pair(sigma, tau, n),
        same_links(e1, e2, sigma, n),
        valid_edges(e1, n),
        valid_edges(e2, n),
    ensures
        graph_key(n, e1) == graph_key(n, e2),
{
    if n > 0 {
        let u = ColouringView::uniform(n);
        lemma_twin_uniform(sigma, tau, n);
        lemma_uniform_wf(n);
        lemma_refine_equitable(u, e1);
        lemma_refine_equitable(u, e2);
        lemma_twin_refine(u, u, e1, e2, sigma, tau, n);
        let root1 = refine(u, e1).0;
        let root2 = refine(u, e2).0;
        lemma_twin_colors(root1, root2, sigma, n);
        if root1.is_discrete() {
            lemma_twin_leaf(root1, root2, e1, e2, sigma, tau, n);
        } else {
            let first1 = seq![root1];
            let first2 = seq![root2];
            assert(first1[0] == root1);
            assert(first2[0] == root2);
            assert(root1.cells.len() == root2.cells.len()) by {
                reveal(twin);
            }
            let count = root1.cells.len();
            assert(matched(first1, first2, sigma, n)) by {
                assert(twin(first1[0], first2[0], sigma, n));
            }
            lemma_twin_search(first1, first2, e1, e2, sigma, tau, n, count);
            lemma_search(first1, e1, count, n);
            lemma_search(first2, e2, count, n);
            lemma_twin_max(
                search(first1, e1, count, n),
                search(first2, e2, count, n),
                e1,
                e2,
                sigma,
                tau,
                n,
            );
        }
    }
}

/// The key does not depend on how the nodes are numbered: two graphs on the
/// same nodes have the same key whenever some permutation of the nodes
/// maps the one onto the other, that is whenever any two nodes are joined by
/// as many edges as their images.
pub proof fn lemma_key_invariant(
    n: nat,
    e1: Seq<(usize, usize)>,
    e2: Seq<(usize, usize)>,
    sigma: Seq<usize>,
)
    requires
        n <= usize::MAX,
        is_permutation(sigma, n),
        same_links(e1, e2, sigma, n),
        valid_edges(e1, n),
        valid_edges(e2, n),
    ensures
        graph_key(n, e1) == graph_key(n, e2),
{
    let tau = Seq::new(
        n,
        |w: int| (choose|u: int| 0 <= u < sigma.len() && #[trigger] sigma[u] == w) as usize,
    );
    assert forall|w: int| 0 <= w < n implies (#[trigger] tau[w]) < n && sigma[tau[w] as int]
        == w by {
        assert(has_preimage(sigma, w));
        let u = choose|u: int| 0 <= u < sigma.len() && #[trigger] sigma[u] == w;
        assert(tau[w] == u as usize);
    }
    assert forall|u: int| 0 <= u < n implies (#[trigger] sigma[u]) < n && tau[sigma[u] as int]
        == u by {
        let w = sigma[u] as int;
        assert(sigma[tau[w] as int] == w);
        if tau[w] != u {
            assert(sigma[tau[w] as int] != sigma[u]);
        }
    }
    lemma_key_invariant_with(n, e1, e2, sigma, tau);
}

/// Renumbering the nodes of a graph by a permutation leaves the key as it
/// is.
pub proof fn lemma_key_of_renumbered(n: nat, edges: Seq<(usize, usize)>, sigma: Seq<usize>)
    requires
        n <= usize::MAX,
        is_permutation(sigma, n),
        valid_edges(edges, n),
    ensures
        graph_key(n, relabel(edges, sigma)) == graph_key(n, edges),
{
    let renumbered = relabel(edges, sigma);
    if n > 0 {
        lemma_relabel_links(edges, sigma, n, 0, 0);
    } else {
        assert(edges.len() == 0) by {
            if edges.len() > 0 {
                assert(edges[0].0 < n);
            }
        }
    }
    assert forall|u: int, v: int|
        #![trigger sigma[u], sigma[v]]
        0 <= u < n && 0 <= v < n implies links(renumbered, sigma[u], sigma[v]) == links(
        edges,
        u as usize,
        v as usize,
    ) by {
        lemma_relabel_links(edges, sigma, n, u, v);
    }
    lemma_key_invariant(n, edges, renumbered, sigma);
}

/// Whether no edge joins a node to itself.
pub open spec fn loop_free(edges: Seq<(usize, usize)>) -> bool {
    forall|i: int| 0 <= i < edges.len() ==> (#[trigger] edges[i]).0 != edges[i].1
}

/// Whether the two graphs on the nodes below `n` are isomorphic: some
/// permutation of the nodes maps the first onto the second.
pub open spec fn isomorphic(n: nat, e1: Seq<(usize, usize)>, e2: Seq<(usize, usize)>) -> bool {
    exists|sigma: Seq<usize>| is_permutation(sigma, n) && #[trigger] same_links(e1, e2, sigma, n)
}

/// In a graph without loops no edge joins a node to itself.
proof fn lemma_no_loops(edges: Seq<(usize, usize)>, u: usize)
    requires
        loop_free(edges),
    ensures
        links(edges, u, u) == 0,
    decreases edges.len(),
{
    if edges.len() > 0 {
        let front = edges.drop_last();
        assert forall|i: int| 0 <= i < front.len() implies (#[trigger] front[i]).0
            != front[i].1 by {
            assert(front[i] == edges[i]);
        }
        lemma_no_loops(front, u);
        assert(edges[edges.len() - 1].0 != edges[edges.len() - 1].1);
    }
}

/// Graphs without loops on the same nodes have the same key if they are
/// isomorphic, and only then.
pub proof fn lemma_key_tells_isomorphism(
    n: nat,
    e1: Seq<(usize, usize)>,
    e2: Seq<(usize, usize)>,
)
    requires
        n <= usize::MAX,
        valid_edges(e1, n),
        valid_edges(e2, n),
        loop_free(e1),
        loop_free(e2),
    ensures
        graph_key(n, e1) == graph_key(n, e2) <==> isomorphic(n, e1, e2),
{
    if graph_key(n, e1) == graph_key(n, e2) {
        let sigma = lemma_equal_keys_isomorphic(n, e1, n, e2);
        assert forall|u: int, v: int|
            #![trigger sigma[u], sigma[v]]
            0 <= u < n && 0 <= v < n implies links(e2, sigma[u], sigma[v]) == links(
            e1,
            u as usize,
            v as usize,
        ) by {
            if u == v {
                lemma_no_loops(e1, u as usize);
                lemma_no_loops(e2, sigma[u]);
            }
        }
        assert(same_links(e1, e2, sigma, n));
    }
    if isomorphic(n, e1, e2) {
        let sigma = choose|sigma: Seq<usize>|
            is_permutation(sigma, n) && #[trigger] same_links(e1, e2, sigma, n);
        lemma_key_invariant(n, e1, e2, sigma);
    }
}

} // verus!
