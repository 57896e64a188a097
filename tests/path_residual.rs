use important_separators::graph::UnGraph;
use important_separators::path_residual::Path;
use important_separators::path_residual::{
    create_contracted_graph, get_augmenting_paths_and_residual_graph,
    get_augmenting_paths_and_residual_graph_for_sets, has_augmenting_path,
};

fn get_path_vertex_tuples(graph: &UnGraph, path: &[Option<usize>], start: usize) -> Vec<(usize, usize)> {
    let mut path_vertex_tuples = vec![];
    let mut vertex = start;
    while let Some(edge) = path[vertex] {
        let (a, b) = graph.edges[edge];
        path_vertex_tuples.push((a, b));
        vertex = if a == vertex { b } else { a };
    }
    path_vertex_tuples
}

#[test]
fn path_residual_simple_augmenting_path() {
    let graph = UnGraph::from_edges(vec![(0, 1), (1, 2), (2, 3), (3, 4)]);
    let mut path = vec![None; graph.node_count()];
    let availability = vec![true; graph.edge_count()];
    let found_path = has_augmenting_path(&graph, 0, 4, &mut path, &availability);
    assert!(found_path);
    let path_vertex_tuples = get_path_vertex_tuples(&graph, &path, 4);
    let expected = vec![(3, 4), (2, 3), (1, 2), (0, 1)];
    assert_eq!(expected, path_vertex_tuples);
}

#[test]
fn path_residual_simple_augmenting_path_with_alternatives() {
    let graph = UnGraph::from_edges(vec![(0, 1), (1, 2), (2, 5), (0, 3), (3, 4), (4, 5)]);
    let mut path = vec![None; graph.node_count()];
    let availability = vec![true; graph.edge_count()];
    let found_path = has_augmenting_path(&graph, 0, 5, &mut path, &availability);
    assert!(found_path);
    let path_vertex_tuples = get_path_vertex_tuples(&graph, &path, 5);
    let accepted1 = vec![(2, 5), (1, 2), (0, 1)];
    let accepted2 = vec![(4, 5), (3, 4), (0, 3)];
    assert!(accepted1 == path_vertex_tuples || accepted2 == path_vertex_tuples);
}

#[test]
fn path_residual_no_augmenting_path() {
    let graph = UnGraph::from_edges(vec![(0, 1), (2, 3)]);
    let mut path = vec![None; graph.node_count()];
    let availability = vec![true; graph.edge_count()];
    let found_path = has_augmenting_path(&graph, 0, 3, &mut path, &availability);
    assert!(!found_path);
}

#[test]
fn path_residual_no_augmenting_path_available() {
    let graph = UnGraph::from_edges(vec![(0, 1), (1, 2), (2, 3)]);
    let mut path = vec![None; graph.node_count()];
    let availability = vec![true, false, true];
    let found_path = has_augmenting_path(&graph, 0, 3, &mut path, &availability);
    assert!(!found_path);
}

#[test]
fn path_residual_only_one_available_augmenting_path() {
    let graph = UnGraph::from_edges(vec![
        (0, 1),
        (1, 2),
        (2, 7),
        (0, 3),
        (3, 4),
        (4, 7),
        (0, 5),
        (5, 6),
        (6, 7),
    ]);
    let mut path = vec![None; graph.node_count()];
    let mut availability = vec![true; graph.edge_count()];
    availability[2] = false;
    availability[4] = false;
    let found_path = has_augmenting_path(&graph, 0, 7, &mut path, &availability);
    assert!(found_path);
    let path_vertex_tuples = get_path_vertex_tuples(&graph, &path, 7);
    let expected = vec![(6, 7), (5, 6), (0, 5)];
    assert_eq!(expected, path_vertex_tuples);
}

#[test]
fn path_residual_get_all_augmenting_paths() {
    let graph = UnGraph::from_edges(vec![
        (0, 1),
        (1, 2),
        (2, 6),
        (0, 3),
        (3, 6),
        (0, 4),
        (4, 5),
        (5, 6),
    ]);
    if let Some((paths, _)) = get_augmenting_paths_and_residual_graph(&graph, 0, 6, 3) {
        let expected_paths = vec![vec![0, 1, 2, 6], vec![0, 3, 6], vec![0, 4, 5, 6]];
        assert!(paths.iter().all(|path| expected_paths.contains(&path.vertices)));
    } else {
        assert!(false);
    }
}

#[test]
fn path_residual_no_augmenting_paths_for_too_small_k() {
    let graph = UnGraph::from_edges(vec![(0, 1), (1, 4), (0, 2), (2, 4), (0, 3), (3, 4)]);
    let paths_and_residual = get_augmenting_paths_and_residual_graph(&graph, 0, 4, 2);
    assert!(paths_and_residual.is_none());
}

#[test]
fn path_residual_correct_residual_graph() {
    let graph = UnGraph::from_edges(vec![(0, 1), (1, 2), (0, 3)]);
    if let Some((_, residual_reverse)) = get_augmenting_paths_and_residual_graph(&graph, 0, 2, 1) {
        let residual_reverse_expected_edges = vec![(1, 2), (0, 1), (0, 3), (3, 0)];
        assert_eq!(4usize, residual_reverse.edge_count());
        assert!(residual_reverse
            .arcs()
            .iter()
            .all(|arc| residual_reverse_expected_edges.contains(arc)));
    } else {
        assert!(false);
    }
}

#[test]
fn correct_contracted_graph() {
    let graph = UnGraph::from_edges(vec![(0, 1), (0, 2), (1, 3), (1, 4), (2, 4), (3, 4)]);
    let source_set = vec![0, 1];
    let destination_set = vec![3, 4];
    let in_use = vec![true; graph.edge_count()];
    let (graph, new_source, new_dest, index_mapping) =
        create_contracted_graph(&graph, &source_set, &destination_set, &in_use).unwrap();
    let edge_indices = graph.edges.clone();
    let expected_vertex_mapping: Vec<Vec<usize>> = vec![vec![0, 1], vec![2], vec![3, 4]];
    let expected_edge_mapping: Vec<Vec<usize>> = vec![vec![1], vec![2, 3], vec![4]];
    assert_eq!(3, edge_indices.len());
    assert!(edge_indices.contains(&(0, 1)));
    assert!(edge_indices.contains(&(0, 2)));
    assert!(edge_indices.contains(&(1, 2)));
    assert_eq!(0, new_source);
    assert_eq!(2, new_dest);
    for (key, values) in index_mapping.vertex_contracted_to_original.iter().enumerate() {
        match expected_vertex_mapping.get(key) {
            None => assert!(false),
            Some(expected_values) => assert_eq!(expected_values.clone(), values.clone()),
        }
    }
    for (key, values) in index_mapping.edge_contracted_to_original.iter().enumerate() {
        match expected_edge_mapping.get(key) {
            None => assert!(false),
            Some(expected_values) => assert_eq!(expected_values.clone(), values.clone()),
        }
    }
}

#[test]
fn correct_augmented_paths_and_residual_for_sets() {
    let original_graph = UnGraph::from_edges(vec![
        (0, 1),
        (0, 2),
        (0, 3),
        (1, 2),
        (2, 3),
        (1, 4),
        (2, 4),
        (3, 5),
        (4, 7),
        (5, 8),
        (7, 10),
        (8, 10),
        (6, 10),
        (6, 9),
        (9, 10),
    ]);
    let source_set = vec![0, 1, 2];
    let destination_set = vec![9, 10];
    let k = 2;
    let in_use = vec![true; original_graph.edge_count()];
    match get_augmenting_paths_and_residual_graph_for_sets(&original_graph, &source_set, &destination_set, k, &in_use) {
        Ok(Some((paths, residual, index_mapping))) => {
            let expected_paths_edges = vec![vec![1, 3, 5], vec![0, 2, 4, 6]];
            assert!(paths.iter().all(|path| expected_paths_edges.contains(&path.edges)));
            assert_eq!(8, residual.node_count());
            assert_eq!(9, residual.edge_count());
            assert_eq!(8, index_mapping.vertex_contracted_to_original.len());
            assert_eq!(8, index_mapping.edge_contracted_to_original.len());
        }
        _ => assert!(false),
    }
}

#[test]
fn destination_of_paths() {
    let graph = UnGraph::from_edges(vec![(0, 1), (1, 2), (0, 3), (3, 2)]);
    let (paths, _) = get_augmenting_paths_and_residual_graph(&graph, 0, 2, 2).unwrap();
    assert_eq!(2, paths.len());
    assert_eq!(Some(2), Path::get_destination(&paths));
    assert_eq!(Some(2), Path::get_destination_node_index(&paths));
    let none: Vec<Path> = vec![];
    assert_eq!(None, Path::get_destination(&none));
}

#[test]
fn sets_sharing_a_vertex_have_no_cut() {
    let graph = UnGraph::from_edges(vec![(0, 1), (1, 2)]);
    let in_use = vec![true; graph.edge_count()];
    let r = get_augmenting_paths_and_residual_graph_for_sets(&graph, &vec![0, 1], &vec![1, 2], 5, &in_use);
    assert!(matches!(r, Ok(None)));
    let r = get_augmenting_paths_and_residual_graph_for_sets(&graph, &vec![], &vec![2], 5, &in_use);
    assert!(matches!(r, Err(important_separators::CutError::InvalidInput)));
}
