use graph_traversal::graph::GraphType;
use graph_traversal::graph::StaticGraph;

fn undirected_graph() -> StaticGraph {
    let mut g = StaticGraph::new(6, GraphType::Undirected);
    g.insert_edge(0, 1, 1);
    g.insert_edge(0, 3, 1);
    g.insert_edge(0, 4, 1);
    g.insert_edge(1, 4, 1);
    g.insert_edge(1, 2, 1);
    g.insert_edge(2, 4, 1);
    g.insert_edge(2, 5, 1);
    g.insert_edge(4, 5, 1);
    g
}

/// Takes the values in the vec as roots of some polynomial
/// and evaluates it at one point for identity testing
fn perm(values: Vec<usize>) -> usize {
    values.iter().map(|v| v + 45).product()
}

fn neighbors_of(g: &StaticGraph, id: usize) -> Vec<usize> {
    g.node(id).unwrap().neighbors()
}

#[test]
fn test_neighbors() {
    let graph = undirected_graph();
    assert_eq!(perm(neighbors_of(&graph, 0)), perm(vec![1, 3, 4]));
    assert_eq!(perm(neighbors_of(&graph, 1)), perm(vec![0, 2, 4]));
    assert_eq!(perm(neighbors_of(&graph, 2)), perm(vec![1, 4, 5]));
    assert_eq!(perm(neighbors_of(&graph, 3)), perm(vec![0]));
    assert_eq!(perm(neighbors_of(&graph, 4)), perm(vec![0, 1, 2, 5]));
    assert_eq!(perm(neighbors_of(&graph, 5)), perm(vec![2, 4]));
}

#[test]
fn test_neighbors_sorted_by_target() {
    let graph = undirected_graph();
    assert_eq!(neighbors_of(&graph, 4), vec![0, 1, 2, 5]);
}

#[test]
fn test_directed_edges_are_not_mirrored() {
    let mut g = StaticGraph::new(3, GraphType::Directed);
    g.insert_edge(0, 1, 1);
    assert!(g.is_edge(0, 1));
    assert!(!g.is_edge(1, 0));
}

#[test]
fn test_undirected_edges_are_mirrored() {
    let mut g = StaticGraph::new(3, GraphType::Undirected);
    g.insert_edge(0, 1, 1);
    assert!(g.is_edge(0, 1));
    assert!(g.is_edge(1, 0));
    assert_eq!(*g.graph_type(), GraphType::Undirected);
}

#[test]
fn test_missing_node_has_no_edges() {
    let g = undirected_graph();
    assert!(g.node(6).is_none());
    assert!(!g.is_edge(6, 0));
    assert!(g.get_edge(0, 2).is_none());
    assert_eq!(g.get_edge(0, 1).unwrap().weight, 1);
}
