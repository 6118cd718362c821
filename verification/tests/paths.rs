use graph_traversal::graph::GraphType;
use graph_traversal::graph::StaticGraph;
use graph_traversal::path::check_edge_path_valid;
use graph_traversal::path::check_node_path_valid;
use graph_traversal::path::check_previous_node_list_valid;
use graph_traversal::path::node_list_from_prev_node_list;
use graph_traversal::path::path_cost;

fn undirected_graph() -> StaticGraph {
    let mut g = StaticGraph::new(6, GraphType::Undirected);
    g.insert_edge(0, 1, 1);
    g.insert_edge(0, 3, 1);
    g.insert_edge(0, 4, 1);
    g.insert_edge(1, 4, 1);
    g.insert_edge(1, 2, 1);
    g.insert_edge(2, 4, 1);
    g.insert_edge(2, 5, 1);
    g.insert_edge(4, 5, 1);
    g
}

#[test]
fn test_path_node_list_valid() {
    let graph = undirected_graph();
    assert!(check_node_path_valid(&graph, &vec![1, 2, 4, 5]));
    assert!(!check_node_path_valid(&graph, &vec![2, 5, 4, 3]));
}

#[test]
fn test_path_edge_list_valid() {
    let graph = undirected_graph();
    assert!(check_edge_path_valid(
        &graph,
        &vec![(0, 1), (1, 4), (4, 5), (5, 2)]
    ));
    assert!(!check_edge_path_valid(
        &graph,
        &vec![(0, 1), (1, 3), (4, 5), (5, 2)]
    ));
}

#[test]
fn test_prev_node_list_to_path_node_list() {
    let prev_node_list = vec![-1, 0, 1, 2, 2, 0, 5, 0, 5, 8]
        .into_iter()
        .map(|v: isize| if v == -1 { None } else { Some(v as usize) })
        .collect::<Vec<Option<usize>>>();
    assert_eq!(
        node_list_from_prev_node_list(&prev_node_list, 9),
        vec![0, 5, 8, 9]
    );
}

#[test]
fn test_empty_and_trivial_paths_are_valid() {
    let graph = undirected_graph();
    assert!(check_node_path_valid(&graph, &Vec::new()));
    assert!(check_node_path_valid(&graph, &vec![3]));
    assert!(check_edge_path_valid(&graph, &Vec::new()));
}

#[test]
fn test_single_bogus_edge_is_invalid() {
    let graph = undirected_graph();
    assert!(!check_edge_path_valid(&graph, &vec![(0, 5)]));
    assert!(check_edge_path_valid(&graph, &vec![(0, 4)]));
    // chaining break between two real edges
    assert!(!check_edge_path_valid(&graph, &vec![(0, 1), (4, 5)]));
}

#[test]
fn test_prev_list_wrong_length_is_invalid() {
    let graph = undirected_graph();
    assert!(!check_previous_node_list_valid(&graph, &vec![None; 5]));
    assert!(check_previous_node_list_valid(&graph, &vec![None; 6]));
    // entry 3 claims discovery across a missing edge 5 - 3
    let mut prev = vec![None; 6];
    prev[3] = Some(5);
    assert!(!check_previous_node_list_valid(&graph, &prev));
}

#[test]
fn test_reconstruction_of_unreached_destination() {
    // a destination whose slot is None yields the one-node path
    let prev = vec![None, Some(0usize), Some(1usize), None];
    assert_eq!(node_list_from_prev_node_list(&prev, 3), vec![3]);
    assert_eq!(node_list_from_prev_node_list(&prev, 2), vec![0, 1, 2]);
}

#[test]
fn test_path_cost_sums_edge_weights() {
    let mut g = StaticGraph::new(3, GraphType::Directed);
    g.insert_edge(0, 1, 5);
    g.insert_edge(1, 2, 7);
    assert_eq!(path_cost(&g, &vec![(0, 1), (1, 2)]), 12);
    assert_eq!(path_cost(&g, &Vec::new()), 0);
}

#[test]
fn test_path_cost_uses_replaced_weight() {
    let mut g = StaticGraph::new(2, GraphType::Directed);
    g.insert_edge(0, 1, 5);
    g.insert_edge(0, 1, 9);
    assert_eq!(path_cost(&g, &vec![(0, 1)]), 9);
}
