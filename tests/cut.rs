use important_separators::cut::{
    generate_minimum_cut_closest_to_destination, generate_minimum_cut_closest_to_destination_with_mapping, Cut,
    CutError, ImportantCut,
};
use important_separators::graph::{ResidualGraph, UnGraph};
use important_separators::path_residual::{get_augmenting_paths_and_residual_graph, IndexMapping, Path};

fn all_contained(lhs: Vec<usize>, rhs: Vec<usize>) -> bool {
    lhs.iter().all(|elem| rhs.contains(elem))
}

fn all_pairs_contained(lhs: Vec<(usize, usize)>, rhs: Vec<(usize, usize)>) -> bool {
    lhs.iter().all(|elem| rhs.contains(elem))
}

#[test]
fn cut_correct_minimum_graph_generation() {
    let residual_graph_reverse = ResidualGraph::from_arcs(vec![
        (0, 1),
        (1, 0),
        (1, 2),
        (2, 1),
        (1, 4),
        (4, 1),
        (2, 3),
        (3, 2),
        (0, 2),
        (2, 4),
        (4, 7),
        (0, 3),
        (3, 5),
        (5, 6),
        (6, 7),
    ]);
    let paths = vec![
        Path { vertices: vec![0, 2, 4, 7], edges: vec![1, 6, 8] },
        Path { vertices: vec![0, 3, 5, 6, 7], edges: vec![2, 7, 9, 10] },
    ];
    let cut = generate_minimum_cut_closest_to_destination(&paths, &residual_graph_reverse).unwrap();
    let expected_source_set: Vec<usize> = vec![0, 1, 2, 3, 4, 5, 6];
    let expected_destination_set: Vec<usize> = vec![7];
    let expected_cut_edge_set: Vec<usize> = vec![8, 10];
    assert_eq!(2, cut.size);
    assert!(all_contained(expected_source_set, cut.source_set));
    assert!(all_contained(expected_destination_set, cut.destination_set));
    assert!(all_contained(expected_cut_edge_set, cut.cut_edge_set));
}

#[test]
fn cut_correct_minimum_graph_generation_from_graph() {
    let graph = UnGraph::from_edges(vec![
        (0, 1),
        (0, 2),
        (0, 3),
        (1, 2),
        (2, 3),
        (1, 4),
        (2, 4),
        (3, 5),
        (4, 7),
        (5, 6),
        (6, 7),
    ]);
    if let Some((paths, residual_reverse)) = get_augmenting_paths_and_residual_graph(&graph, 0, 7, 2) {
        let cut_r_max = generate_minimum_cut_closest_to_destination(&paths, &residual_reverse).unwrap();
        let expected_source_set_rev: Vec<usize> = vec![0, 1, 2, 3, 4, 5, 6];
        let expected_destination_set_rev: Vec<usize> = vec![7];
        let expected_cut_edge_set_rev: Vec<usize> = vec![8, 10];
        assert_eq!(2, cut_r_max.size);
        assert!(all_contained(expected_source_set_rev, cut_r_max.source_set));
        assert!(all_contained(expected_destination_set_rev, cut_r_max.destination_set));
        assert!(all_contained(expected_cut_edge_set_rev, cut_r_max.cut_edge_set));
    } else {
        assert!(false);
    }
}

#[test]
fn test_get_arbitrary_edge() {
    let graph = UnGraph::from_edges(vec![(0, 1), (2, 1), (2, 3)]);
    let cut = Cut::new(vec![0, 1], vec![2, 3], vec![1]);
    let arbitrary_edge = cut.arbitrary_edge(&graph);
    assert_eq!(Ok((1, 2)), arbitrary_edge);
}

#[test]
fn correct_minimum_cut_generation_with_mapping() {
    let contracted_graph = UnGraph::from_edges(vec![(0, 1), (0, 2), (1, 2)]);
    let index_mapping = IndexMapping::from(
        vec![vec![0, 1], vec![2], vec![3, 4]],
        vec![vec![1], vec![2, 3], vec![4]],
    );
    if let Some((paths, residual_reverse)) = get_augmenting_paths_and_residual_graph(&contracted_graph, 0, 2, 3) {
        let cut_r_max =
            generate_minimum_cut_closest_to_destination_with_mapping(&paths, &residual_reverse, &index_mapping)
                .unwrap();
        let expected_source_set: Vec<usize> = vec![0, 1, 2];
        let expected_destination_set: Vec<usize> = vec![3, 4];
        let expected_cut_edge_set: Vec<usize> = vec![2, 3, 4];
        let expected_cut_size = 3;
        assert_eq!(expected_cut_size, cut_r_max.size);
        assert!(all_contained(expected_source_set, cut_r_max.source_set));
        assert!(all_contained(expected_destination_set, cut_r_max.destination_set));
        assert!(all_contained(expected_cut_edge_set, cut_r_max.cut_edge_set.clone()));
    } else {
        assert!(false);
    }
}

#[test]
fn important_cut_get_vertex_pairs() {
    let graph = UnGraph::from_edges(vec![(0, 1), (0, 2), (1, 4), (0, 3), (1, 2), (2, 3)]);
    let important_cut = ImportantCut::from(vec![0, 2, 3]);
    let pairs = important_cut.vertex_pairs(&graph);
    assert_eq!(3, pairs.len());
    let expected_pairs = vec![(0, 1), (1, 4), (0, 3)];
    assert!(all_pairs_contained(expected_pairs, pairs));
}

#[test]
fn empty_paths_are_invalid_input() {
    let residual = ResidualGraph::from_arcs(vec![(0, 1)]);
    let paths: Vec<Path> = vec![];
    assert_eq!(Err(CutError::InvalidInput), generate_minimum_cut_closest_to_destination(&paths, &residual));
}

#[test]
fn mapping_lookup_miss_is_invariant_violation() {
    let graph = UnGraph::from_edges(vec![(0, 1)]);
    let (paths, residual) = get_augmenting_paths_and_residual_graph(&graph, 0, 1, 1).unwrap();
    let index_mapping = IndexMapping::from(vec![vec![0]], vec![vec![0]]);
    assert_eq!(
        Err(CutError::InvariantViolation),
        generate_minimum_cut_closest_to_destination_with_mapping(&paths, &residual, &index_mapping)
    );
}

#[test]
fn edge_not_across_the_cut_is_invariant_violation() {
    let graph = UnGraph::from_edges(vec![(0, 1), (2, 1), (2, 3)]);
    let cut = Cut::new(vec![0, 1], vec![2, 3], vec![1]);
    assert_eq!(Err(CutError::InvariantViolation), cut.edge_across(&graph, 0));
    assert_eq!(Err(CutError::InvariantViolation), cut.edge_across(&graph, 7));
    assert_eq!(Ok((1, 2)), cut.edge_across(&graph, 1));
}

#[test]
fn arbitrary_edge_of_empty_cut_fails() {
    let graph = UnGraph::from_edges(vec![(0, 1)]);
    let cut = Cut::new(vec![0, 1], vec![], vec![]);
    assert_eq!(Err(CutError::InvariantViolation), cut.arbitrary_edge(&graph));
}

#[test]
fn important_cut_from_drops_repeats_in_order() {
    let cut = ImportantCut::from(vec![4, 1, 4, 2, 1]);
    assert_eq!(vec![4, 1, 2], cut.edge_indices);
}

#[test]
fn vec_vertex_indices_drops_repeated_cuts() {
    let graph = UnGraph::from_edges(vec![(0, 1), (1, 2), (2, 3)]);
    let cuts = vec![ImportantCut::from(vec![2]), ImportantCut::from(vec![0, 1]), ImportantCut::from(vec![2])];
    assert_eq!(vec![vec![(2, 3)], vec![(0, 1), (1, 2)]], ImportantCut::vec_vertex_indices(&graph, cuts));
}

#[test]
fn vec_edge_indices_keeps_each_cut() {
    let cuts = vec![ImportantCut::from(vec![2]), ImportantCut::from(vec![0, 1])];
    assert_eq!(vec![vec![2], vec![0, 1]], ImportantCut::vec_edge_indices(cuts));
}

#[test]
fn min_cut_is_exact_on_graph() {
    let graph = UnGraph::from_edges(vec![(0, 1), (0, 2), (1, 3), (2, 3), (3, 4), (1, 2)]);
    let (paths, residual) = get_augmenting_paths_and_residual_graph(&graph, 0, 4, 3).unwrap();
    let cut = generate_minimum_cut_closest_to_destination(&paths, &residual).unwrap();
    for v in 0..graph.node_count() {
        assert!(cut.source_set.contains(&v) != cut.destination_set.contains(&v));
    }
    let crossing: Vec<usize> = (0..graph.edge_count())
        .filter(|&e| {
            let (a, b) = graph.edges[e];
            cut.destination_set.contains(&a) != cut.destination_set.contains(&b)
        })
        .collect();
    let mut listed = cut.cut_edge_set.clone();
    listed.sort();
    assert_eq!(crossing, listed);
    assert_eq!(cut.size, cut.cut_edge_set.len());
    assert_eq!(vec![4], cut.cut_edge_set);
}

#[test]
fn search_reroutes_through_used_edges() {
    let graph = UnGraph::from_edges(vec![(0, 1), (1, 2), (2, 3), (1, 4), (4, 3), (0, 5), (5, 2)]);
    let (paths, residual) = get_augmenting_paths_and_residual_graph(&graph, 0, 3, 2).unwrap();
    assert_eq!(2, paths.len());
    let cut = generate_minimum_cut_closest_to_destination(&paths, &residual).unwrap();
    assert_eq!(2, cut.size);
    let mut edges = cut.cut_edge_set.clone();
    edges.sort();
    assert_eq!(vec![2, 4], edges);
    assert_eq!(vec![3], cut.destination_set);
    let cuts = important_separators::important_cuts(&graph, vec![0], vec![3], 2).unwrap();
    assert!(!cuts.is_empty());
    assert!(cuts.iter().all(|c| c.edge_indices.len() <= 2));
}
