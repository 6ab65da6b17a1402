//! What the key tells about the graph: graphs with the same key are
//! isomorphic, and the key changes with every edge added or taken away.
//!
//! The descriptor leaves out loops, so all of this is about the edges
//! between different nodes.

use vstd::prelude::*;
use crate::descriptor::{
    descriptor, gap_run, last_link, lemma_descriptor_injective, relabel, row_upto, rows_upto,
};
use crate::graph::{joins, links};
use crate::partition::{
    lemma_discrete_colors, lemma_discrete_onto, lemma_node_colors, ColouringView,
};
use crate::search::{graph_key, leaf_descriptor, lemma_key_leaf};

verus! {

/// Whether all endpoints of `edges` are nodes below `n`.
pub open spec fn valid_edges(edges: Seq<(usize, usize)>, n: nat) -> bool {
    forall|i: int| 0 <= i < edges.len() ==> (#[trigger] edges[i]).0 < n && edges[i].1 < n
}

/// Whether `col` gives the nodes below `n` values below `n`, no two the
/// same.
pub open spec fn injective(col: Seq<usize>, n: nat) -> bool {
    &&& col.len() == n
    &&& forall|u: int| 0 <= u < n ==> (#[trigger] col[u]) < n
    &&& forall|u: int, v: int|
        #![trigger col[u], col[v]]
        0 <= u < n && 0 <= v < n && u != v ==> col[u] != col[v]
}

/// Whether `sigma` is a permutation of the nodes below `n`.
pub open spec fn is_permutation(sigma: Seq<usize>, n: nat) -> bool {
    &&& injective(sigma, n)
    &&& forall|w: int| 0 <= w < n ==> #[trigger] has_preimage(sigma, w)
}

/// Whether some node is sent to `w` by `sigma`.
pub open spec fn has_preimage(sigma: Seq<usize>, w: int) -> bool {
    exists|u: int| 0 <= u < sigma.len() && #[trigger] sigma[u] == w
}

/// Whether `sigma` maps the first graph onto the second: two different
/// nodes are joined by as many edges as their images.
pub open spec fn isomorphic_by(
    sigma: Seq<usize>,
    n: nat,
    e1: Seq<(usize, usize)>,
    e2: Seq<(usize, usize)>,
) -> bool {
    &&& is_permutation(sigma, n)
    &&& forall|u: int, v: int|
        #![trigger sigma[u], sigma[v]]
        0 <= u < n && 0 <= v < n && u != v ==> links(e2, sigma[u], sigma[v]) == links(
            e1,
            u as usize,
            v as usize,
        )
}

/// The number of edges between different nodes.
pub open spec fn nonloops(edges: Seq<(usize, usize)>) -> nat
    decreases edges.len(),
{
    if edges.len() == 0 {
        0
    } else {
        nonloops(edges.drop_last()) + if edges.last().0 != edges.last().1 {
            1nat
        } else {
            0nat
        }
    }
}

/// Renaming the nodes by an injective map keeps the number of edges between
/// any two nodes.
pub proof fn lemma_relabel_links(
    edges: Seq<(usize, usize)>,
    col: Seq<usize>,
    n: nat,
    u: int,
    v: int,
)
    requires
        n <= usize::MAX,
        valid_edges(edges, n),
        injective(col, n),
        0 <= u < n,
        0 <= v < n,
    ensures
        links(relabel(edges, col), col[u], col[v]) == links(edges, u as usize, v as usize),
        valid_edges(relabel(edges, col), n),
        nonloops(relabel(edges, col)) == nonloops(edges),
    decreases edges.len(),
{
    let r = relabel(edges, col);
    if edges.len() > 0 {
        let front = edges.drop_last();
        let e = edges.last();
        assert(edges[edges.len() - 1].0 < n);
        assert forall|i: int| 0 <= i < front.len() implies (#[trigger] front[i]).0 < n
            && front[i].1 < n by {
            assert(front[i] == edges[i]);
        }
        lemma_relabel_links(front, col, n, u, v);
        assert(r.drop_last() =~= relabel(front, col));
        assert(r.last() == (col[e.0 as int], col[e.1 as int]));
        assert(joins(r.last(), col[u], col[v]) <==> joins(e, u as usize, v as usize)) by {
            let a = e.0 as int;
            let b = e.1 as int;
            if col[a] == col[u] {
                assert(a == u);
            }
            if col[b] == col[v] {
                assert(b == v);
            }
            if col[a] == col[v] {
                assert(a == v);
            }
            if col[b] == col[u] {
                assert(b == u);
            }
        }
        assert(r.last().0 != r.last().1 <==> e.0 != e.1) by {
            if e.0 != e.1 {
                assert(col[e.0 as int] != col[e.1 as int]);
            }
        }
        assert forall|i: int| 0 <= i < r.len() implies (#[trigger] r[i]).0 < n && r[i].1 < n by {
            assert(edges[i].0 < n);
            assert(col[edges[i].0 as int] < n);
            assert(col[edges[i].1 as int] < n);
        }
    }
}

/// The colours of a discrete colouring are a renaming of the nodes.
pub proof fn lemma_discrete_injective(p: ColouringView)
    requires
        p.wf(),
        p.is_discrete(),
    ensures
        injective(p.color_of_node, p.size),
{
    lemma_node_colors(p);
    lemma_discrete_colors(p);
}

/// Graphs with the same key have the same number of nodes and are
/// isomorphic: some permutation of the nodes maps the one onto the other,
/// but for loops.
pub proof fn lemma_equal_keys_isomorphic(
    n1: nat,
    e1: Seq<(usize, usize)>,
    n2: nat,
    e2: Seq<(usize, usize)>,
) -> (sigma: Seq<usize>)
    requires
        n1 <= usize::MAX,
        n2 <= usize::MAX,
        valid_edges(e1, n1),
        valid_edges(e2, n2),
        graph_key(n1, e1) == graph_key(n2, e2),
    ensures
        n1 == n2,
        isomorphic_by(sigma, n1, e1, e2),
{
    if n1 == 0 || n2 == 0 {
        if n1 > 0 {
            let p = lemma_key_leaf(n1, e1);
            assert(leaf_descriptor(p, e1).len() > 0);
        }
        if n2 > 0 {
            let p = lemma_key_leaf(n2, e2);
            assert(leaf_descriptor(p, e2).len() > 0);
        }
        let sigma = Seq::<usize>::empty();
        sigma
    } else {
        let pa = lemma_key_leaf(n1, e1);
        let pb = lemma_key_leaf(n2, e2);
        assert(leaf_descriptor(pa, e1)[0] == n1);
        assert(leaf_descriptor(pb, e2)[0] == n2);
        let n = n1;
        let c1 = pa.color_of_node;
        let c2 = pb.color_of_node;
        let r1 = relabel(e1, c1);
        let r2 = relabel(e2, c2);
        lemma_discrete_injective(pa);
        lemma_discrete_injective(pb);
        assert forall|u: int| 0 <= u < n implies #[trigger] has_preimage(c2, c1[u] as int) by {
            let w = lemma_discrete_onto(pb, c1[u] as int);
            assert(c2[w] == c1[u]);
        }
        let sigma = Seq::new(
            n,
            |u: int| (choose|w: int| 0 <= w < c2.len() && #[trigger] c2[w] == c1[u] as int) as usize,
        );
        assert forall|u: int| 0 <= u < n implies (#[trigger] sigma[u]) < n && c2[sigma[u] as int]
            == c1[u] by {
            assert(has_preimage(c2, c1[u] as int));
            let w = choose|w: int| 0 <= w < c2.len() && #[trigger] c2[w] == c1[u] as int;
            assert(sigma[u] == w as usize);
        }
        assert forall|u: int, v: int|
            #![trigger sigma[u], sigma[v]]
            0 <= u < n && 0 <= v < n && u != v implies sigma[u] != sigma[v] by {
            assert(c1[u] != c1[v]);
        }
        assert forall|w: int| 0 <= w < n implies #[trigger] has_preimage(sigma, w) by {
            let u = lemma_discrete_onto(pa, c2[w] as int);
            assert(c2[sigma[u] as int] == c2[w]);
            if sigma[u] != w {
                assert(c2[sigma[u] as int] != c2[w]);
            }
            assert(sigma[u] == w);
        }
        assert forall|u: int, v: int|
            #![trigger sigma[u], sigma[v]]
            0 <= u < n && 0 <= v < n && u != v implies links(e2, sigma[u], sigma[v]) == links(
            e1,
            u as usize,
            v as usize,
        ) by {
            assert(c1[u] != c1[v]);
            lemma_descriptor_injective(n, r1, r2, c1[u], c1[v]);
            lemma_relabel_links(e1, c1, n, u, v);
            lemma_relabel_links(e2, c2, n, sigma[u] as int, sigma[v] as int);
        }
        sigma
    }
}

/// How many of the nodes in `a + 1 .. j` the edge `e` joins to `a`: one or
/// none.
spec fn hit_row(e: (usize, usize), a: nat, j: nat) -> nat
    decreases j,
{
    if j <= a + 1 {
        0
    } else {
        hit_row(e, a, (j - 1) as nat) + if joins(e, a as usize, (j - 1) as usize) {
            1nat
        } else {
            0nat
        }
    }
}

/// An edge shows in the row of its lower end, if its upper end is below `j`,
/// and in no other.
proof fn lemma_hit_row(e: (usize, usize), a: nat, j: nat)
    requires
        a < j <= usize::MAX,
    ensures
        hit_row(e, a, j) == if (e.0 == a && a < e.1 < j) || (e.1 == a && a < e.0 < j) {
            1nat
        } else {
            0nat
        },
    decreases j,
{
    if j > a + 1 {
        lemma_hit_row(e, a, (j - 1) as nat);
    }
}

/// One more edge makes a row longer by what it shows there.
proof fn lemma_row_len(edges: Seq<(usize, usize)>, a: nat, j: nat)
    requires
        a < j <= usize::MAX,
    ensures
        edges.len() == 0 ==> row_upto(edges, a, j).len() == 0,
        edges.len() > 0 ==> row_upto(edges, a, j).len() == row_upto(edges.drop_last(), a, j).len()
            + hit_row(edges.last(), a, j),
    decreases j,
{
    if j > a + 1 {
        lemma_row_len(edges, a, (j - 1) as nat);
        let x = (j - 1) as usize;
        let gap = (j - 1 - last_link(edges, a, (j - 1) as nat)) as usize;
        assert(gap_run(links(edges, a as usize, x), gap).len() == links(edges, a as usize, x));
        if edges.len() > 0 {
            let front = edges.drop_last();
            let front_gap = (j - 1 - last_link(front, a, (j - 1) as nat)) as usize;
            assert(gap_run(links(front, a as usize, x), front_gap).len() == links(
                front,
                a as usize,
                x,
            ));
        }
    }
}

/// One more edge makes the rows longer by one if it joins different nodes and
/// its lower end is below `i`.
proof fn lemma_rows_len(edges: Seq<(usize, usize)>, n: nat, i: nat)
    requires
        i < n <= usize::MAX,
        valid_edges(edges, n),
    ensures
        edges.len() == 0 ==> rows_upto(edges, n, i).len() == i,
        edges.len() > 0 ==> rows_upto(edges, n, i).len() == rows_upto(
            edges.drop_last(),
            n,
            i,
        ).len() + if edges.last().0 != edges.last().1 && (edges.last().0 < i || edges.last().1
            < i) {
            1nat
        } else {
            0nat
        },
    decreases i,
{
    if i > 0 {
        let a = (i - 1) as nat;
        lemma_rows_len(edges, n, a);
        lemma_row_len(edges, a, n);
        if edges.len() > 0 {
            lemma_hit_row(edges.last(), a, n);
            assert(edges[edges.len() - 1].0 < n);
        }
    }
}

/// The descriptor of a graph on `n` nodes is as long as the graph has nodes
/// and edges between different nodes.
pub proof fn lemma_descriptor_len(n: nat, edges: Seq<(usize, usize)>)
    requires
        0 < n <= usize::MAX,
        valid_edges(edges, n),
    ensures
        descriptor(n, edges).len() == n + nonloops(edges),
    decreases edges.len(),
{
    lemma_rows_len(edges, n, (n - 1) as nat);
    if edges.len() > 0 {
        let front = edges.drop_last();
        assert forall|i: int| 0 <= i < front.len() implies (#[trigger] front[i]).0 < n
            && front[i].1 < n by {
            assert(front[i] == edges[i]);
        }
        lemma_descriptor_len(n, front);
        assert(edges[edges.len() - 1].0 < n);
    }
}

/// The key of a graph with nodes is as long as the graph has nodes and
/// edges between different nodes.
pub proof fn lemma_key_len(n: nat, edges: Seq<(usize, usize)>)
    requires
        0 < n <= usize::MAX,
        valid_edges(edges, n),
    ensures
        graph_key(n, edges).len() == n + nonloops(edges),
{
    let p = lemma_key_leaf(n, edges);
    lemma_discrete_injective(p);
    lemma_relabel_links(edges, p.color_of_node, n, 0, 0);
    lemma_descriptor_len(n, relabel(edges, p.color_of_node));
}

/// Graphs on the same nodes with different numbers of edges between
/// different nodes have different keys.
pub proof fn lemma_edge_count_tells(n: nat, e1: Seq<(usize, usize)>, e2: Seq<(usize, usize)>)
    requires
        0 < n <= usize::MAX,
        valid_edges(e1, n),
        valid_edges(e2, n),
        nonloops(e1) != nonloops(e2),
    ensures
        graph_key(n, e1) != graph_key(n, e2),
{
    lemma_key_len(n, e1);
    lemma_key_len(n, e2);
}

/// Adding an edge between two different nodes changes the key.
pub proof fn lemma_added_edge_changes_key(n: nat, edges: Seq<(usize, usize)>, e: (usize, usize))
    requires
        n <= usize::MAX,
        valid_edges(edges, n),
        e.0 < n,
        e.1 < n,
        e.0 != e.1,
    ensures
        graph_key(n, edges.push(e)) != graph_key(n, edges),
{
    let more = edges.push(e);
    assert(more.drop_last() =~= edges);
    assert forall|i: int| 0 <= i < more.len() implies (#[trigger] more[i]).0 < n && more[i].1
        < n by {
        if i < edges.len() {
            assert(more[i] == edges[i]);
        }
    }
    lemma_edge_count_tells(n, more, edges);
}

/// An edge taken away is missing from the count if it joined different
/// nodes.
proof fn lemma_nonloops_remove(edges: Seq<(usize, usize)>, i: int)
    requires
        0 <= i < edges.len(),
    ensures
        nonloops(edges) == nonloops(edges.remove(i)) + if edges[i].0 != edges[i].1 {
            1nat
        } else {
            0nat
        },
    decreases edges.len(),
{
    if i == edges.len() - 1 {
        assert(edges.remove(i) =~= edges.drop_last());
    } else {
        lemma_nonloops_remove(edges.drop_last(), i);
        assert(edges.remove(i).drop_last() =~= edges.drop_last().remove(i));
        assert(edges.remove(i).last() == edges.last());
    }
}

/// Taking away an edge between two different nodes changes the key.
pub proof fn lemma_removed_edge_changes_key(n: nat, edges: Seq<(usize, usize)>, i: int)
    requires
        n <= usize::MAX,
        valid_edges(edges, n),
        0 <= i < edges.len(),
        edges[i].0 != edges[i].1,
    ensures
        graph_key(n, edges.remove(i)) != graph_key(n, edges),
{
    let fewer = edges.remove(i);
    assert(edges[i].0 < n);
    lemma_nonloops_remove(edges, i);
    assert forall|k: int| 0 <= k < fewer.len() implies (#[trigger] fewer[k]).0 < n && fewer[k].1
        < n by {
        if k < i {
            assert(fewer[k] == edges[k]);
        } else {
            assert(fewer[k] == edges[k + 1]);
        }
    }
    lemma_edge_count_tells(n, fewer, edges);
}

} // verus!
