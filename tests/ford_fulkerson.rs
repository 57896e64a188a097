use important_separators::ford_fulkerson::{
    generate_minimum_cut, get_augmenting_paths_and_residual_graph, has_augmenting_path,
};
use important_separators::graph::{ResidualGraph, UnGraph};
use important_separators::path_residual::Path;

fn get_path_vertex_tuples(graph: &UnGraph, path: &[Option<usize>], start: usize) -> Vec<(usize, usize)> {
    let mut path_vertex_tuples = vec![];
    let mut vertex = start;
    while let Some(edge) = path[vertex] {
        let (a, b) = graph.edges[edge];
        path_vertex_tuples.push((a, b));
        vertex = if a == vertex { b } else { a };
    }
    path_vertex_tuples
}

fn all_contained(lhs: Vec<usize>, rhs: Vec<usize>) -> bool {
    lhs.iter().all(|elem| rhs.contains(elem))
}

#[test]
fn ford_fulkerson_simple_augmenting_path() {
    let graph = UnGraph::from_edges(vec![(0, 1), (1, 2), (2, 3), (3, 4)]);
    let mut path = vec![None; graph.node_count()];
    let availability = vec![true; graph.edge_count()];
    let found_path = has_augmenting_path(&graph, 0, 4, &mut path, &availability);
    assert!(found_path);
    let path_vertex_tuples = get_path_vertex_tuples(&graph, &path, 4);
    let expected = vec![(3, 4), (2, 3), (1, 2), (0, 1)];
    assert_eq!(expected, path_vertex_tuples);
}

#[test]
fn ford_fulkerson_simple_augmenting_path_with_alternatives() {
    let graph = UnGraph::from_edges(vec![(0, 1), (1, 2), (2, 5), (0, 3), (3, 4), (4, 5)]);
    let mut path = vec![None; graph.node_count()];
    let availability = vec![true; graph.edge_count()];
    let found_path = has_augmenting_path(&graph, 0, 5, &mut path, &availability);
    assert!(found_path);
    let path_vertex_tuples = get_path_vertex_tuples(&graph, &path, 5);
    let accepted1 = vec![(2, 5), (1, 2), (0, 1)];
    let accepted2 = vec![(4, 5), (3, 4), (0, 3)];
    assert!(accepted1 == path_vertex_tuples || accepted2 == path_vertex_tuples);
}

#[test]
fn ford_fulkerson_no_augmenting_path() {
    let graph = UnGraph::from_edges(vec![(0, 1), (2, 3)]);
    let mut path = vec![None; graph.node_count()];
    let availability = vec![true; graph.edge_count()];
    let found_path = has_augmenting_path(&graph, 0, 3, &mut path, &availability);
    assert!(!found_path);
}

#[test]
fn ford_fulkerson_no_augmenting_path_available() {
    let graph = UnGraph::from_edges(vec![(0, 1), (1, 2), (2, 3)]);
    let mut path = vec![None; graph.node_count()];
    let availability = vec![true, false, true];
    let found_path = has_augmenting_path(&graph, 0, 3, &mut path, &availability);
    assert!(!found_path);
}

#[test]
fn ford_fulkerson_only_one_available_augmenting_path() {
    let graph = UnGraph::from_edges(vec![
        (0, 1),
        (1, 2),
        (2, 7),
        (0, 3),
        (3, 4),
        (4, 7),
        (0, 5),
        (5, 6),
        (6, 7),
    ]);
    let mut path = vec![None; graph.node_count()];
    let mut availability = vec![true; graph.edge_count()];
    availability[2] = false;
    availability[4] = false;
    let found_path = has_augmenting_path(&graph, 0, 7, &mut path, &availability);
    assert!(found_path);
    let path_vertex_tuples = get_path_vertex_tuples(&graph, &path, 7);
    let expected = vec![(6, 7), (5, 6), (0, 5)];
    assert_eq!(expected, path_vertex_tuples);
}

#[test]
fn ford_fulkerson_get_all_augmenting_paths() {
    let graph = UnGraph::from_edges(vec![
        (0, 1),
        (1, 2),
        (2, 6),
        (0, 3),
        (3, 6),
        (0, 4),
        (4, 5),
        (5, 6),
    ]);
    if let Some((paths, _)) = get_augmenting_paths_and_residual_graph(&graph, 0, 6, 3) {
        let expected_paths = vec![vec![0, 1, 2, 6], vec![0, 3, 6], vec![0, 4, 5, 6]];
        assert!(paths.iter().all(|path| expected_paths.contains(&path.vertices)));
    } else {
        assert!(false);
    }
}

#[test]
fn ford_fulkerson_no_augmenting_paths_for_too_small_k() {
    let graph = UnGraph::from_edges(vec![(0, 1), (1, 4), (0, 2), (2, 4), (0, 3), (3, 4)]);
    let paths_and_residual = get_augmenting_paths_and_residual_graph(&graph, 0, 4, 2);
    assert!(paths_and_residual.is_none());
}

#[test]
fn ford_fulkerson_correct_residual_graph() {
    let graph = UnGraph::from_edges(vec![(0, 1), (1, 2), (0, 3)]);
    if let Some((_, residual)) = get_augmenting_paths_and_residual_graph(&graph, 0, 2, 1) {
        let residual_expected_edges = vec![(2, 1), (1, 0), (0, 3), (3, 0)];
        assert_eq!(4usize, residual.edge_count());
        assert!(residual.arcs().iter().all(|arc| residual_expected_edges.contains(arc)));
    } else {
        assert!(false);
    }
}

#[test]
fn ford_fulkerson_correct_minimum_graph_generation() {
    let residual_graph = ResidualGraph::from_arcs(vec![
        (0, 1),
        (1, 0),
        (1, 2),
        (2, 1),
        (1, 4),
        (4, 1),
        (2, 3),
        (3, 2),
        (2, 0),
        (4, 2),
        (7, 4),
        (3, 0),
        (5, 3),
        (6, 5),
        (7, 6),
    ]);
    let paths = vec![
        Path { vertices: vec![0, 2, 4, 7], edges: vec![1, 6, 8] },
        Path { vertices: vec![0, 3, 5, 6, 7], edges: vec![2, 7, 9, 10] },
    ];
    let cut = generate_minimum_cut(&paths, &residual_graph).unwrap();
    let expected_source_set: Vec<usize> = vec![0, 1, 2, 3, 4];
    let expected_destination_set: Vec<usize> = vec![5, 6, 7];
    let expected_cut_edge_set: Vec<usize> = vec![7, 8];
    assert_eq!(2, cut.size);
    assert!(all_contained(expected_source_set, cut.source_set));
    assert!(all_contained(expected_destination_set, cut.destination_set));
    assert!(all_contained(expected_cut_edge_set, cut.cut_edge_set));
}

#[test]
fn ford_fulkerson_correct_minimum_graph_generation_from_graph() {
    let graph = UnGraph::from_edges(vec![
        (0, 1),
        (0, 2),
        (0, 3),
        (1, 2),
        (2, 3),
        (1, 4),
        (2, 4),
        (3, 5),
        (4, 7),
        (5, 6),
        (6, 7),
    ]);
    if let Some((paths, residual)) = get_augmenting_paths_and_residual_graph(&graph, 0, 7, 2) {
        let cut = generate_minimum_cut(&paths, &residual).unwrap();
        let expected_source_set: Vec<usize> = vec![0, 1, 2, 3, 4];
        let expected_destination_set: Vec<usize> = vec![5, 6, 7];
        let expected_cut_edge_set: Vec<usize> = vec![7, 8];
        assert_eq!(2, cut.size);
        assert!(all_contained(expected_source_set, cut.source_set));
        assert!(all_contained(expected_destination_set, cut.destination_set));
        assert!(all_contained(expected_cut_edge_set, cut.cut_edge_set));
    } else {
        assert!(false);
    }
}
