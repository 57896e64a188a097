use important_separators::cut::Cut;
use important_separators::graph::UnGraph;
use important_separators::naive::{filter_important_cuts, generate_cuts};
use important_separators::node::{NodeData, NodeType};

fn clrs_graph() -> UnGraph {
    UnGraph::from_edges(vec![(0, 1), (0, 2), (1, 3), (2, 1), (2, 4), (3, 2), (3, 5), (4, 3), (4, 5)])
}

fn is_exact(graph: &UnGraph, cut: &Cut) -> bool {
    let partition = (0..graph.node_count())
        .all(|v| cut.source_set.contains(&v) != cut.destination_set.contains(&v));
    let crossing: Vec<usize> = (0..graph.edge_count())
        .filter(|&e| {
            let (a, b) = graph.edges[e];
            cut.source_set.contains(&a) != cut.source_set.contains(&b)
        })
        .collect();
    let mut listed = cut.cut_edge_set.clone();
    listed.sort();
    partition && crossing == listed && cut.size == cut.cut_edge_set.len()
}

#[test]
fn clrs_cuts_are_small_and_exact() {
    let graph = clrs_graph();
    let cuts = generate_cuts(&graph, 0, 5, 3);
    assert!(!cuts.is_empty());
    for cut in &cuts {
        assert!(cut.size <= 3);
        assert!(is_exact(&graph, cut));
        assert!(cut.source_set.contains(&0));
        assert!(cut.destination_set.contains(&5));
    }
}

#[test]
fn clrs_filter_drops_dominated_cuts() {
    let graph = clrs_graph();
    let cuts = generate_cuts(&graph, 0, 5, 3);
    let kept = filter_important_cuts(&cuts);
    for c in &cuts {
        let dominated = cuts
            .iter()
            .any(|d| d.size <= c.size && d.source_set.len() < c.source_set.len());
        assert_eq!(!dominated, kept.contains(c));
    }
    assert_eq!(vec![Cut::new(vec![0], vec![1, 2, 3, 4, 5], vec![0, 1])], kept);
}

#[test]
fn generate_cuts_twice_gives_the_same_cuts() {
    let graph = clrs_graph();
    assert_eq!(generate_cuts(&graph, 0, 5, 3), generate_cuts(&graph, 0, 5, 3));
}

#[test]
fn generate_cuts_on_a_line() {
    let graph = UnGraph::from_edges(vec![(0, 1), (1, 2), (2, 3)]);
    let cuts = generate_cuts(&graph, 0, 3, 1);
    assert_eq!(3, cuts.len());
    assert_eq!(vec![0], cuts[0].cut_edge_set);
    assert_eq!(vec![0, 1, 2], cuts[2].source_set);
    assert_eq!(vec![2], cuts[2].cut_edge_set);
}

#[test]
fn generate_cuts_with_zero_budget_on_connected_graph() {
    let graph = UnGraph::from_edges(vec![(0, 1)]);
    assert!(generate_cuts(&graph, 0, 1, 0).is_empty());
}

#[test]
fn node_data_roles() {
    assert_eq!(NodeType::Other, NodeData::new().get_node_type());
    assert_eq!(NodeType::Source, NodeData::new_source().get_node_type());
    assert_eq!(NodeType::Sink, NodeData::new_sink().get_node_type());
}
