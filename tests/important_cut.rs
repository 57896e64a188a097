use important_separators::cut::{CutError, ImportantCut};
use important_separators::graph::UnGraph;
use important_separators::important_cuts;

fn all_contained(lhs: Vec<usize>, rhs: Vec<usize>) -> bool {
    lhs.iter().all(|elem| rhs.contains(elem))
}

fn all_contained_vec(lhs: Vec<Vec<usize>>, rhs: Vec<Vec<usize>>) -> bool {
    lhs.iter()
        .all(|lhs_elem| rhs.iter().find(|&rhs_elem| all_contained(lhs_elem.clone(), rhs_elem.clone())).is_some())
}

#[test]
fn simple_line() {
    let graph = UnGraph::from_edges(vec![(0, 1), (1, 2), (2, 3), (3, 4)]);
    let source = vec![0];
    let destination = vec![4];
    let k = 1;
    let cuts = important_cuts(&graph, source, destination, k).unwrap();
    assert_eq!(1, cuts.len());
    cuts.iter().for_each(|imp_cut| {
        assert_eq!(1, imp_cut.edge_indices.len());
        assert_eq!(3, imp_cut.edge_indices[0]);
        assert_eq!((3, 4), imp_cut.vertex_pairs(&graph)[0]);
    });
}

#[test]
fn simple_y_shape() {
    let graph = UnGraph::from_edges(vec![(0, 1), (1, 2), (1, 3)]);
    let source = vec![0];
    let destination = vec![2, 3];
    let k1 = 1;
    let result_1 = important_cuts(&graph, source.clone(), destination.clone(), k1).unwrap();
    let result_1_edges = ImportantCut::vec_edge_indices(result_1);
    let expected_important_cuts_1 = vec![vec![0]];
    assert!(all_contained_vec(expected_important_cuts_1, result_1_edges));
    let k2 = 2;
    let result_2 = important_cuts(&graph, source, destination, k2).unwrap();
    let result_2_edges = ImportantCut::vec_edge_indices(result_2);
    let expected_important_cuts_2 = vec![vec![0], vec![1, 2]];
    assert!(all_contained_vec(expected_important_cuts_2, result_2_edges));
}

#[test]
fn simple_binary_tree() {
    fn create_binary_tree(levels: usize) -> UnGraph {
        assert!(levels > 0);
        let mut edges = vec![];
        let total_nodes_with_children = (2 << (levels - 2)) - 1;
        for i in 0..total_nodes_with_children {
            let left_child = 2 * i + 1;
            let right_child = 2 * i + 2;
            edges.push((i, left_child));
            edges.push((i, right_child));
        }
        UnGraph::from_edges(edges)
    }
    let graph = create_binary_tree(3);
    let source = vec![0];
    let destination = (3..=6).collect();
    let k = 3;
    let result = important_cuts(&graph, source, destination, k).unwrap();
    let result_edges = ImportantCut::vec_edge_indices(result);
    let expected_important_cuts = vec![vec![0, 4, 5], vec![2, 3, 1]];
    assert!(all_contained_vec(expected_important_cuts, result_edges));
}

#[test]
fn important_cuts_stay_within_budget() {
    let graph = UnGraph::from_edges(vec![(0, 1), (0, 2), (1, 3), (1, 4), (2, 5), (2, 6), (3, 4), (5, 6)]);
    for k in 0..5 {
        let cuts = important_cuts(&graph, vec![0], vec![3, 4, 5, 6], k).unwrap();
        for c in cuts {
            assert!(c.edge_indices.len() <= k);
            let mut sorted = c.edge_indices.clone();
            sorted.sort();
            sorted.dedup();
            assert_eq!(sorted.len(), c.edge_indices.len());
        }
    }
}

#[test]
fn important_cuts_repeat_to_the_same_set() {
    let graph = UnGraph::from_edges(vec![(0, 1), (1, 2), (1, 3)]);
    let sets = |cuts: Vec<ImportantCut>| {
        let mut v: Vec<Vec<usize>> = cuts
            .into_iter()
            .map(|c| {
                let mut e = c.edge_indices;
                e.sort();
                e
            })
            .collect();
        v.sort();
        v.dedup();
        v
    };
    let first = sets(important_cuts(&graph, vec![0], vec![2, 3], 2).unwrap());
    let second = sets(important_cuts(&graph, vec![0], vec![2, 3], 2).unwrap());
    assert_eq!(first, second);
    assert_eq!(vec![vec![0], vec![1, 2]], first);
}

#[test]
fn important_cuts_reject_empty_sets() {
    let graph = UnGraph::from_edges(vec![(0, 1)]);
    assert!(matches!(important_cuts(&graph, vec![], vec![1], 1), Err(CutError::InvalidInput)));
    assert!(matches!(important_cuts(&graph, vec![0], vec![], 1), Err(CutError::InvalidInput)));
    assert!(matches!(important_cuts(&graph, vec![0], vec![9], 1), Err(CutError::InvalidInput)));
}

#[test]
fn important_cuts_with_too_small_budget_are_empty() {
    let graph = UnGraph::from_edges(vec![(0, 1), (1, 4), (0, 2), (2, 4), (0, 3), (3, 4)]);
    assert_eq!(0, important_cuts(&graph, vec![0], vec![4], 2).unwrap().len());
}
