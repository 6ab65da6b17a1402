use graphkey::descriptor::compute_descriptor;
use graphkey::GraphKey;
use petgraph::algo::is_isomorphic;
use petgraph::graph::{NodeIndex, UnGraph};
use petgraph::{Graph, Undirected};
use rand::seq::SliceRandom;
use rand::{thread_rng, Rng};
use std::collections::HashSet;

fn gen_test_graph() -> Graph<usize, (), Undirected> {
    let edges: Vec<(u32, u32)> = vec![
        (0, 3),
        (0, 5),
        (0, 8),
        (1, 4),
        (1, 6),
        (1, 8),
        (2, 5),
        (2, 7),
        (3, 6),
        (3, 9),
        (4, 7),
        (4, 9),
        (5, 8),
        (7, 9),
    ];
    UnGraph::from_edges(edges)
}

fn generate_random_graph(n: usize, p: f64) -> Graph<usize, (), Undirected> {
    let mut rng = rand::thread_rng();
    let mut g = UnGraph::<usize, ()>::new_undirected();
    g.reserve_nodes(n);
    (0..n).for_each(|i| {
        g.add_node(i);
    });
    for i in 0..n {
        for j in (i + 1)..n {
            if rng.gen_range((0.)..(1.)) < p {
                g.add_edge(NodeIndex::new(i), NodeIndex::new(j), ());
            }
        }
    }
    g
}

fn permuted_by(g: &Graph<usize, (), Undirected>, perm: &[usize]) -> Graph<usize, (), Undirected> {
    let n = g.node_count();
    let edges: Vec<(usize, usize)> = g
        .edge_indices()
        .map(|e| {
            let (u, v) = g.edge_endpoints(e).unwrap();
            (perm[u.index()], perm[v.index()])
        })
        .collect();
    let mut h = UnGraph::<usize, ()>::new_undirected();
    h.reserve_nodes(n);
    (0..n).for_each(|_| {
        h.add_node(1);
    });
    h.reserve_edges(edges.len());
    edges.into_iter().for_each(|(u, v)| {
        h.add_edge(NodeIndex::new(u), NodeIndex::new(v), ());
    });
    h
}

fn generate_permutated_graph(g: &Graph<usize, (), Undirected>) -> Graph<usize, (), Undirected> {
    let n = g.node_count();
    let mut perm: Vec<usize> = (0..n).collect();
    let mut rng = thread_rng();
    perm.shuffle(&mut rng);
    permuted_by(g, &perm)
}

fn graph_of(n: usize, edges: &[(usize, usize)]) -> Graph<usize, (), Undirected> {
    let mut g = UnGraph::<usize, ()>::new_undirected();
    for i in 0..n {
        g.add_node(i);
    }
    for &(u, v) in edges {
        g.add_edge(NodeIndex::new(u), NodeIndex::new(v), ());
    }
    g
}

fn all_permutations(n: usize) -> Vec<Vec<usize>> {
    let mut out: Vec<Vec<usize>> = vec![vec![]];
    for _ in 0..n {
        let mut next = Vec::new();
        for p in &out {
            for v in 0..n {
                if !p.contains(&v) {
                    let mut q = p.clone();
                    q.push(v);
                    next.push(q);
                }
            }
        }
        out = next;
    }
    out
}

#[test]
fn key_generation() {
    let g1 = gen_test_graph();
    let g2 = generate_permutated_graph(&g1);

    let key1 = GraphKey::new(&g1);
    let key2 = GraphKey::new(&g2);

    assert_eq!(key1, key2);
}

#[test]
fn key_generation_large() {
    let g1 = generate_random_graph(2000, 0.05);
    let g2 = generate_permutated_graph(&g1);

    let key1 = GraphKey::new(&g1);
    let key2 = GraphKey::new(&g2);

    assert_eq!(key1, key2);
}

#[test]
fn hashset_graphkeys() {
    let mut g = generate_random_graph(1000, 0.1);

    let g1 = generate_permutated_graph(&g);
    let g2 = generate_permutated_graph(&g);

    match g.find_edge(0.into(), 1.into()) {
        Some(_ix) => {
            g.remove_edge(_ix);
        }
        None => {
            g.add_edge(0.into(), 1.into(), ());
        }
    }

    let g3 = generate_permutated_graph(&g);
    let g4 = generate_permutated_graph(&g);

    let mut s = HashSet::new();

    s.insert(GraphKey::new(&g1));
    s.insert(GraphKey::new(&g2));
    s.insert(GraphKey::new(&g3));
    s.insert(GraphKey::new(&g4));

    assert_eq!(s.len(), 2);
}

#[test]
fn is_isomorphic_test() {
    for _ in 0..100 {
        let g1 = generate_random_graph(500, 0.05);
        let g2 = generate_random_graph(500, 0.05);
        let g3 = generate_permutated_graph(&g1);

        let key1 = GraphKey::new(&g1);
        let key2 = GraphKey::new(&g2);
        let key3 = GraphKey::new(&g3);

        assert_eq!(is_isomorphic(&g1, &g2), key1 == key2);
        assert_eq!(key1, key3);
    }
}

#[test]
fn key_of_the_graph_without_nodes_is_empty() {
    let g = graph_of(0, &[]);
    assert_eq!(GraphKey::new(&g).get_descriptor(), &Vec::<usize>::new());
}

#[test]
fn key_of_a_single_node() {
    let g = graph_of(1, &[]);
    assert_eq!(GraphKey::new(&g).get_descriptor(), &vec![1]);
}

#[test]
fn key_of_a_single_edge() {
    let g = graph_of(2, &[(0, 1)]);
    assert_eq!(GraphKey::new(&g).get_descriptor(), &vec![2, 1, 2]);
    let h = graph_of(2, &[(1, 0)]);
    assert_eq!(GraphKey::new(&h).get_descriptor(), &vec![2, 1, 2]);
}

#[test]
fn key_of_two_nodes_without_edge() {
    let g = graph_of(2, &[]);
    assert_eq!(GraphKey::new(&g).get_descriptor(), &vec![2, 2]);
}

#[test]
fn key_of_a_path_on_three_nodes() {
    // The middle node gets the highest colour, the ends are searched.
    let expected = vec![3, 2, 3, 1, 3];
    for perm in all_permutations(3) {
        let g = permuted_by(&graph_of(3, &[(0, 1), (1, 2)]), &perm);
        assert_eq!(GraphKey::new(&g).get_descriptor(), &expected);
    }
}

#[test]
fn key_of_the_five_cycle_is_the_same_for_all_labelings() {
    let cycle = graph_of(5, &[(0, 1), (1, 2), (2, 3), (3, 4), (4, 0)]);
    let key = GraphKey::new(&cycle);
    let perms = all_permutations(5);
    assert_eq!(perms.len(), 120);
    for perm in perms {
        let g = permuted_by(&cycle, &perm);
        assert_eq!(GraphKey::new(&g), key);
    }
    assert_eq!(key.get_descriptor().len(), 10);
    assert_eq!(key.get_descriptor()[0], 5);
}

#[test]
fn key_of_the_small_graph_is_the_same_for_many_labelings() {
    let g = gen_test_graph();
    let key = GraphKey::new(&g);
    for _ in 0..200 {
        assert_eq!(GraphKey::new(&generate_permutated_graph(&g)), key);
    }
}

#[test]
fn keys_of_all_graphs_on_four_nodes_tell_isomorphism() {
    let pairs = [(0, 1), (0, 2), (0, 3), (1, 2), (1, 3), (2, 3)];
    let mut graphs = Vec::new();
    for mask in 0..64u32 {
        let edges: Vec<(usize, usize)> =
            (0..6).filter(|b| mask & (1 << b) != 0).map(|b| pairs[b]).collect();
        graphs.push(graph_of(4, &edges));
    }
    let keys: Vec<GraphKey> = graphs.iter().map(|g| GraphKey::new(g)).collect();
    for a in 0..graphs.len() {
        for b in 0..graphs.len() {
            assert_eq!(is_isomorphic(&graphs[a], &graphs[b]), keys[a] == keys[b]);
        }
    }
    let distinct: HashSet<&GraphKey> = keys.iter().collect();
    assert_eq!(distinct.len(), 11);
}

#[test]
fn keys_of_all_graphs_on_five_nodes_tell_isomorphism() {
    let mut pairs = Vec::new();
    for i in 0..5 {
        for j in (i + 1)..5 {
            pairs.push((i, j));
        }
    }
    let mut keys = HashSet::new();
    for mask in 0..1024u32 {
        let edges: Vec<(usize, usize)> =
            (0..10).filter(|b| mask & (1 << b) != 0).map(|b| pairs[b]).collect();
        keys.insert(GraphKey::new(&graph_of(5, &edges)));
    }
    assert_eq!(keys.len(), 34);
}

#[test]
fn changing_one_edge_changes_the_key() {
    let g = gen_test_graph();
    let mut h = gen_test_graph();
    let e = h.find_edge(0.into(), 3.into()).unwrap();
    h.remove_edge(e);
    assert_ne!(GraphKey::new(&g), GraphKey::new(&h));
    let mut k = gen_test_graph();
    k.add_edge(0.into(), 1.into(), ());
    assert_ne!(GraphKey::new(&g), GraphKey::new(&k));
}

#[test]
fn descriptor_of_the_five_cycle_as_numbered() {
    let cycle = graph_of(5, &[(0, 1), (1, 2), (2, 3), (3, 4), (4, 0)]);
    assert_eq!(compute_descriptor(&cycle), vec![5, 1, 3, 5, 1, 5, 1, 5, 1, 5]);
}

#[test]
fn descriptor_writes_parallel_edges_as_zeros_and_skips_loops() {
    let g = graph_of(3, &[(0, 2), (2, 0), (1, 1), (0, 2), (1, 2)]);
    assert_eq!(compute_descriptor(&g), vec![3, 2, 0, 0, 3, 1, 3]);
}

#[test]
fn descriptor_of_the_graph_without_nodes() {
    let g = graph_of(0, &[]);
    assert_eq!(compute_descriptor(&g), vec![0]);
}

#[test]
fn descriptor_of_the_complete_graph_on_four_nodes() {
    let g = graph_of(4, &[(0, 1), (0, 2), (0, 3), (1, 2), (1, 3), (2, 3)]);
    assert_eq!(compute_descriptor(&g), vec![4, 1, 1, 1, 4, 1, 1, 4, 1, 4]);
}

fn petersen() -> Graph<usize, (), Undirected> {
    let mut edges = Vec::new();
    for i in 0..5 {
        edges.push((i, (i + 1) % 5));
        edges.push((i, i + 5));
        edges.push((i + 5, (i + 2) % 5 + 5));
    }
    graph_of(10, &edges)
}

fn rook_graph() -> Graph<usize, (), Undirected> {
    let mut edges = Vec::new();
    for u in 0..16 {
        for v in (u + 1)..16 {
            let same_row = u / 4 == v / 4;
            let same_column = u % 4 == v % 4;
            if same_row != same_column {
                edges.push((u, v));
            }
        }
    }
    graph_of(16, &edges)
}

fn shrikhande_graph() -> Graph<usize, (), Undirected> {
    let steps = [(1, 0), (3, 0), (0, 1), (0, 3), (1, 1), (3, 3)];
    let mut edges = Vec::new();
    for u in 0..16usize {
        for v in (u + 1)..16usize {
            let dx = (4 + v / 4 - u / 4) % 4;
            let dy = (4 + v % 4 - u % 4) % 4;
            if steps.contains(&(dx, dy)) {
                edges.push((u, v));
            }
        }
    }
    graph_of(16, &edges)
}

#[test]
fn key_of_the_petersen_graph_is_the_same_for_many_labelings() {
    let g = petersen();
    assert_eq!(g.edge_count(), 15);
    let key = GraphKey::new(&g);
    assert_eq!(key.get_descriptor().len(), 25);
    for _ in 0..30 {
        assert_eq!(GraphKey::new(&generate_permutated_graph(&g)), key);
    }
}

#[test]
fn keys_tell_the_prism_from_the_complete_bipartite_graph() {
    let prism = graph_of(
        6,
        &[(0, 1), (1, 2), (2, 0), (3, 4), (4, 5), (5, 3), (0, 3), (1, 4), (2, 5)],
    );
    let bipartite = graph_of(
        6,
        &[(0, 3), (0, 4), (0, 5), (1, 3), (1, 4), (1, 5), (2, 3), (2, 4), (2, 5)],
    );
    let key_prism = GraphKey::new(&prism);
    let key_bipartite = GraphKey::new(&bipartite);
    assert_ne!(key_prism, key_bipartite);
    for _ in 0..20 {
        assert_eq!(GraphKey::new(&generate_permutated_graph(&prism)), key_prism);
        assert_eq!(GraphKey::new(&generate_permutated_graph(&bipartite)), key_bipartite);
    }
}

#[test]
fn keys_tell_two_strongly_regular_graphs_with_the_same_parameters() {
    let rook = rook_graph();
    let shrikhande = shrikhande_graph();
    assert_eq!(rook.edge_count(), 48);
    assert_eq!(shrikhande.edge_count(), 48);
    let key_rook = GraphKey::new(&rook);
    let key_shrikhande = GraphKey::new(&shrikhande);
    assert_ne!(key_rook, key_shrikhande);
    for _ in 0..3 {
        assert_eq!(GraphKey::new(&generate_permutated_graph(&rook)), key_rook);
        assert_eq!(GraphKey::new(&generate_permutated_graph(&shrikhande)), key_shrikhande);
    }
}

#[test]
fn keys_of_small_random_graphs_agree_with_an_isomorphism_test() {
    let mut rng = thread_rng();
    for round in 0..300 {
        let n = 1 + round % 8;
        let g = generate_random_graph(n, 0.5);
        let mut h = if round % 3 == 0 {
            generate_random_graph(n, 0.5)
        } else {
            generate_permutated_graph(&g)
        };
        if round % 3 == 1 && n >= 2 {
            let a = rng.gen_range(0..n);
            let b = (a + 1 + rng.gen_range(0..(n - 1))) % n;
            match h.find_edge(NodeIndex::new(a), NodeIndex::new(b)) {
                Some(e) => {
                    h.remove_edge(e);
                }
                None => {
                    h.add_edge(NodeIndex::new(a), NodeIndex::new(b), ());
                }
            }
        }
        assert_eq!(is_isomorphic(&g, &h), GraphKey::new(&g) == GraphKey::new(&h));
    }
}

#[test]
fn key_has_an_entry_for_every_node_and_every_edge() {
    for _ in 0..20 {
        let g = generate_random_graph(30, 0.2);
        let key = GraphKey::new(&g);
        assert_eq!(key.get_descriptor().len(), 30 + g.edge_count());
        assert_eq!(key.get_descriptor()[0], 30);
    }
}

#[test]
fn loops_do_not_show_in_the_key() {
    let plain = graph_of(3, &[(0, 1), (1, 2)]);
    let looped = graph_of(3, &[(0, 1), (1, 1), (1, 2)]);
    assert_eq!(GraphKey::new(&plain), GraphKey::new(&looped));
}

#[test]
fn parallel_edges_show_in_the_key() {
    let single = graph_of(3, &[(0, 1), (1, 2)]);
    let double = graph_of(3, &[(0, 1), (1, 2), (2, 1)]);
    assert_ne!(GraphKey::new(&single), GraphKey::new(&double));
    let other = graph_of(3, &[(2, 0), (0, 2), (0, 1)]);
    assert_eq!(GraphKey::new(&double), GraphKey::new(&other));
}

#[test]
fn descriptor_does_not_depend_on_the_order_of_the_edges() {
    let g = graph_of(4, &[(0, 1), (1, 2), (2, 3), (0, 3)]);
    let h = graph_of(4, &[(3, 0), (3, 2), (1, 0), (2, 1)]);
    assert_eq!(compute_descriptor(&g), compute_descriptor(&h));
    let k = graph_of(4, &[(0, 1), (1, 2), (2, 3), (0, 2)]);
    assert_ne!(compute_descriptor(&g), compute_descriptor(&k));
}
