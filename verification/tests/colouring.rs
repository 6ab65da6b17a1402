use graphkey::coloring::{Colouring, Kdim};
use petgraph::graph::{NodeIndex, UnGraph};
use petgraph::visit::EdgeRef;
use petgraph::{Graph, Undirected};

fn graph_with(n: usize, edges: &[(usize, usize)]) -> Graph<usize, (), Undirected> {
    let mut g = UnGraph::<usize, ()>::new_undirected();
    for i in 0..n {
        g.add_node(i);
    }
    for &(u, v) in edges {
        g.add_edge(NodeIndex::new(u), NodeIndex::new(v), ());
    }
    g
}

fn cells_of(c: &Colouring) -> Vec<(usize, Vec<usize>)> {
    (0..c.get_cell_count()).map(|k| (c.get_cell_color(k), c.get_cell_members(k))).collect()
}

fn node_colors_of(c: &Colouring) -> Vec<usize> {
    (0..c.get_size()).map(|n| c.get_node_color(n)).collect()
}

/// Every node in one cell, the maps in step with the cells, colours
/// distinct, no cell empty, discrete exactly when all cells are singletons.
fn check_invariants(c: &Colouring) {
    let n = c.get_size();
    let cells = cells_of(c);
    let mut seen = vec![0usize; n];
    for (k, (color, members)) in cells.iter().enumerate() {
        assert!(!members.is_empty());
        assert_eq!(c.get_color_cell(*color), Some(k));
        for &m in members {
            seen[m] += 1;
            assert_eq!(c.get_node_color(m), *color);
        }
        for (j, (other, _)) in cells.iter().enumerate() {
            if j != k {
                assert_ne!(color, other);
            }
        }
    }
    assert!(seen.iter().all(|&s| s == 1));
    assert_eq!(c.is_discrete(), cells.iter().all(|(_, m)| m.len() == 1));
    assert_eq!(c.is_discrete(), cells.len() == n);
}

#[test]
fn new_colouring_has_one_cell_of_colour_zero() {
    let g = graph_with(5, &[(0, 1)]);
    let c = Colouring::new(&g);
    assert_eq!(c.get_size(), 5);
    assert_eq!(c.get_cell_count(), 1);
    assert_eq!(cells_of(&c), vec![(0, vec![0, 1, 2, 3, 4])]);
    assert_eq!(node_colors_of(&c), vec![0, 0, 0, 0, 0]);
    assert_eq!(c.get_color_cell(0), Some(0));
    assert_eq!(c.get_color_cell(1), None);
    assert!(!c.is_discrete());
    check_invariants(&c);
}

#[test]
fn new_colouring_of_one_node_is_discrete() {
    let g = graph_with(1, &[]);
    let c = Colouring::new(&g);
    assert!(c.is_discrete());
    assert_eq!(cells_of(&c), vec![(0, vec![0])]);
    check_invariants(&c);
}

#[test]
fn new_colouring_of_no_nodes_has_no_cell() {
    let g = graph_with(0, &[]);
    let c = Colouring::new(&g);
    assert_eq!(c.get_cell_count(), 0);
    assert!(c.is_discrete());
    check_invariants(&c);
}

#[test]
fn individualize_gives_the_node_the_old_colour() {
    let g = graph_with(5, &[]);
    let mut c = Colouring::new(&g);
    let color = c.individualize(0, 2);
    assert_eq!(color, 1);
    assert_eq!(cells_of(&c), vec![(1, vec![0, 1, 3, 4]), (0, vec![2])]);
    assert_eq!(node_colors_of(&c), vec![1, 1, 0, 1, 1]);
    assert_eq!(c.get_color_cell(0), Some(1));
    assert_eq!(c.get_color_cell(1), Some(0));
    assert_eq!(c.get_color_cell(2), None);
    check_invariants(&c);
}

#[test]
fn split_cell_moves_the_old_cell_up_by_the_size_of_the_new_one() {
    let g = graph_with(6, &[]);
    let mut c = Colouring::new(&g);
    let color = c.split_cell(0, vec![4, 1]);
    assert_eq!(color, 2);
    assert_eq!(cells_of(&c), vec![(2, vec![0, 2, 3, 5]), (0, vec![1, 4])]);
    assert_eq!(node_colors_of(&c), vec![2, 0, 2, 2, 0, 2]);
    check_invariants(&c);

    let color = c.split_cell(0, vec![5]);
    assert_eq!(color, 3);
    assert_eq!(cells_of(&c), vec![(3, vec![0, 2, 3]), (0, vec![1, 4]), (2, vec![5])]);
    assert_eq!(node_colors_of(&c), vec![3, 0, 3, 3, 0, 2]);
    assert_eq!(c.get_color_cell(2), Some(2));
    assert_eq!(c.get_color_cell(3), Some(0));
    check_invariants(&c);

    let color = c.individualize(1, 4);
    assert_eq!(color, 1);
    assert_eq!(
        cells_of(&c),
        vec![(3, vec![0, 2, 3]), (1, vec![1]), (2, vec![5]), (0, vec![4])]
    );
    check_invariants(&c);
}

#[test]
fn splitting_down_to_single_nodes_makes_the_colouring_discrete() {
    let g = graph_with(3, &[]);
    let mut c = Colouring::new(&g);
    assert_eq!(c.select_cell_v1(), 0);
    c.individualize(0, 0);
    assert!(!c.is_discrete());
    assert_eq!(c.select_cell_v1(), 0);
    c.individualize(0, 2);
    assert!(c.is_discrete());
    assert_eq!(cells_of(&c), vec![(2, vec![1]), (0, vec![0]), (1, vec![2])]);
    check_invariants(&c);
}

#[test]
fn select_cell_skips_leading_singletons() {
    let g = graph_with(4, &[]);
    let mut c = Colouring::new(&g);
    c.split_cell(0, vec![1, 2, 3]);
    assert_eq!(cells_of(&c), vec![(3, vec![0]), (0, vec![1, 2, 3])]);
    assert_eq!(c.select_cell_v1(), 1);
}

#[test]
fn clone_is_independent() {
    let g = graph_with(4, &[]);
    let c = Colouring::new(&g);
    let mut d = c.clone();
    d.individualize(0, 3);
    assert_eq!(c.get_cell_count(), 1);
    assert_eq!(d.get_cell_count(), 2);
    assert_eq!(cells_of(&c), vec![(0, vec![0, 1, 2, 3])]);
}

#[test]
fn refine_splits_a_path_by_degree() {
    let g = graph_with(3, &[(0, 1), (1, 2)]);
    let mut c = Colouring::new(&g);
    let trace = c.refine(&g);
    assert_eq!(trace, vec![2]);
    assert_eq!(cells_of(&c), vec![(2, vec![1]), (0, vec![0, 2])]);
    check_invariants(&c);
}

#[test]
fn refine_splits_into_several_parts_in_ascending_degree() {
    // Degrees: node 0 has 3, nodes 1 and 2 have 2, node 3 has 1, node 4 has 0.
    let g = graph_with(5, &[(0, 1), (0, 2), (0, 3), (1, 2)]);
    let mut c = Colouring::new(&g);
    let trace = c.refine(&g);
    assert_eq!(trace, vec![1, 2, 4]);
    assert_eq!(
        cells_of(&c),
        vec![(4, vec![0]), (0, vec![4]), (1, vec![3]), (2, vec![1, 2])]
    );
    assert_eq!(node_colors_of(&c), vec![4, 2, 2, 1, 0]);
    check_invariants(&c);
}

#[test]
fn refine_leaves_a_regular_graph_alone() {
    let g = graph_with(5, &[(0, 1), (1, 2), (2, 3), (3, 4), (4, 0)]);
    let mut c = Colouring::new(&g);
    let trace = c.refine(&g);
    assert_eq!(trace, Vec::<usize>::new());
    assert_eq!(cells_of(&c), vec![(0, vec![0, 1, 2, 3, 4])]);
}

#[test]
fn refine_after_individualize_on_a_cycle() {
    let g = graph_with(5, &[(0, 1), (1, 2), (2, 3), (3, 4), (4, 0)]);
    let mut c = Colouring::new(&g);
    let color = c.individualize(0, 0);
    assert_eq!(color, 1);
    let trace = c.refine(&g);
    // Node 0 first tells its neighbours 1 and 4 from the far nodes 2 and 3.
    assert_eq!(trace, vec![3]);
    assert_eq!(cells_of(&c), vec![(3, vec![1, 4]), (0, vec![0]), (1, vec![2, 3])]);
    check_invariants(&c);
}

#[test]
fn refining_twice_gives_an_empty_trace() {
    let shapes: Vec<(usize, Vec<(usize, usize)>)> = vec![
        (3, vec![(0, 1), (1, 2)]),
        (5, vec![(0, 1), (0, 2), (0, 3), (1, 2)]),
        (6, vec![(0, 1), (1, 2), (2, 3), (3, 4), (4, 5)]),
        (7, vec![(0, 1), (0, 2), (1, 3), (1, 4), (2, 5), (2, 6)]),
        (10, vec![(0, 3), (0, 5), (0, 8), (1, 4), (1, 6), (1, 8), (2, 5), (2, 7), (3, 6), (3, 9),
            (4, 7), (4, 9), (5, 8), (7, 9)]),
    ];
    for (n, edges) in shapes {
        let g = graph_with(n, &edges);
        let mut c = Colouring::new(&g);
        c.refine(&g);
        let before = cells_of(&c);
        let again = c.refine(&g);
        assert_eq!(again, Vec::<usize>::new());
        assert_eq!(cells_of(&c), before);
        check_invariants(&c);
    }
}

#[test]
fn refine_gives_the_same_trace_every_time() {
    let edges = vec![(0, 1), (0, 2), (1, 3), (1, 4), (2, 5), (2, 6)];
    let g = graph_with(7, &edges);
    let mut first = Colouring::new(&g);
    let trace = first.refine(&g);
    for _ in 0..5 {
        let mut c = Colouring::new(&g);
        assert_eq!(c.refine(&g), trace);
        assert_eq!(cells_of(&c), cells_of(&first));
    }
}

#[test]
fn refine_counts_parallel_edges() {
    // Nodes 0 and 1 both have one neighbour, but node 0 is joined to it twice.
    let g = graph_with(4, &[(0, 2), (0, 2), (1, 3)]);
    let mut c = Colouring::new(&g);
    let trace = c.refine(&g);
    assert_eq!(trace, vec![2]);
    assert_eq!(cells_of(&c), vec![(2, vec![0, 2]), (0, vec![1, 3])]);
}

#[test]
fn relabelled_graph_has_the_colours_as_nodes() {
    let g = graph_with(3, &[(0, 1), (1, 2)]);
    let mut c = Colouring::new(&g);
    c.refine(&g);
    c.individualize(1, 2);
    assert!(c.is_discrete());
    assert_eq!(node_colors_of(&c), vec![1, 2, 0]);
    let h = c.compute_graph_from_discrete(&g);
    assert_eq!(h.node_count(), 3);
    let edges: Vec<(usize, usize)> =
        h.edge_references().map(|e| (e.source().index(), e.target().index())).collect();
    assert_eq!(edges, vec![(1, 2), (2, 0)]);
}

#[test]
fn kdim_with_more_cells_is_greater() {
    assert!(Kdim::new(3, vec![5, 6]) > Kdim::new(2, vec![0]));
    assert!(Kdim::new(2, vec![0]) < Kdim::new(3, vec![5, 6]));
    assert!(Kdim::new(1, vec![]) > Kdim::new(0, vec![]));
}

#[test]
fn kdim_with_the_smaller_trace_is_greater() {
    assert!(Kdim::new(2, vec![1, 9]) > Kdim::new(2, vec![2, 0]));
    assert!(Kdim::new(2, vec![1]) > Kdim::new(2, vec![1, 0]));
    assert!(Kdim::new(2, vec![1, 0]) < Kdim::new(2, vec![1]));
    assert!(Kdim::new(2, vec![]) > Kdim::new(2, vec![0]));
}

#[test]
fn kdim_equality_needs_both_parts() {
    assert!(Kdim::new(2, vec![1, 2]) == Kdim::new(2, vec![1, 2]));
    assert!(Kdim::new(2, vec![1, 2]) != Kdim::new(3, vec![1, 2]));
    assert!(Kdim::new(2, vec![1, 2]) != Kdim::new(2, vec![1, 3]));
    assert!(Kdim::new(2, vec![1, 2]) <= Kdim::new(2, vec![1, 2]));
    assert_eq!(Kdim::new(2, vec![1, 2]).rank(&Kdim::new(2, vec![1, 2])), 0);
    assert_eq!(Kdim::new(2, vec![1, 2]).rank(&Kdim::new(2, vec![1, 3])), 1);
    assert_eq!(Kdim::new(2, vec![1, 2]).rank(&Kdim::new(4, vec![])), -1);
    assert_eq!(Kdim::new(2, vec![1, 2]).clone(), Kdim::new(2, vec![1, 2]));
    assert_eq!(Kdim::new(7, vec![1]).cell_count(), 7);
}
