use graph_traversal::bfs::bfs;
use graph_traversal::dfs::dfs_basic;
use graph_traversal::dfs::dfs_connected_components;
use graph_traversal::dfs::dfs_recursive_path;
use graph_traversal::dfs::dfs_recursive_path_all;
use graph_traversal::dfs::dfs_stack_path;
use graph_traversal::graph::GraphType;
use graph_traversal::graph::StaticGraph;
use graph_traversal::path::check_node_path_valid;
use graph_traversal::path::check_previous_node_list_valid;
use graph_traversal::path::node_list_from_prev_node_list;
use graph_traversal::path::prev_node_graph_path_to_isize_vec;

fn ten_node_undirected_graph() -> StaticGraph {
    let mut g = StaticGraph::new(10, GraphType::Undirected);
    g.insert_edge(0, 1, 0);
    g.insert_edge(0, 5, 0);
    g.insert_edge(0, 7, 0);
    g.insert_edge(1, 2, 0);
    g.insert_edge(2, 3, 0);
    g.insert_edge(2, 5, 0);
    g.insert_edge(2, 4, 0);
    g.insert_edge(4, 9, 0);
    g.insert_edge(5, 6, 0);
    g.insert_edge(5, 8, 0);
    g.insert_edge(6, 8, 0);
    g.insert_edge(7, 8, 0);
    g.insert_edge(8, 9, 0);
    g
}

fn disconnected_undirected_graph() -> StaticGraph {
    let mut g = StaticGraph::new(8, GraphType::Undirected);
    g.insert_edge(0, 1, 0);
    g.insert_edge(0, 4, 0);
    g.insert_edge(1, 2, 0);
    g.insert_edge(3, 7, 0);
    g.insert_edge(5, 6, 0);
    g
}

#[test]
fn test_bfs() {
    let g = ten_node_undirected_graph();
    assert_eq!(
        bfs(&g, 0)
            .into_iter()
            .map(|v| v.map(|v| v as isize).unwrap_or(-1))
            .collect::<Vec<_>>(),
        vec![-1, 0, 1, 2, 2, 0, 5, 0, 5, 8]
    );
}

#[test]
fn bfs_test_bfs() {
    let graph = ten_node_undirected_graph();
    assert_eq!(
        prev_node_graph_path_to_isize_vec(&bfs(&graph, 0)),
        vec![-1, 0, 1, 2, 2, 0, 5, 0, 5, 8]
    );
}

#[test]
fn test_dfs() {
    let graph = ten_node_undirected_graph();
    assert_eq!(
        prev_node_graph_path_to_isize_vec(&dfs_stack_path(&graph, 0)),
        vec![-1, 2, 4, 2, 9, 2, 5, 0, 7, 8],
    );
}

#[test]
fn test_dfs_recursive_path_generation() {
    let graph = ten_node_undirected_graph();
    assert!(check_previous_node_list_valid(
        &graph,
        &dfs_recursive_path_all(&graph)
    ));
}

#[test]
fn test_dfs_stack_path_generation() {
    let graph = ten_node_undirected_graph();
    assert!(check_previous_node_list_valid(
        &graph,
        &dfs_stack_path(&graph, 0)
    ));
}

#[test]
fn test_connected_components() {
    let graph = disconnected_undirected_graph();
    assert_eq!(
        dfs_connected_components(&graph),
        vec![0, 0, 0, 1, 0, 2, 2, 1]
    );
}

#[test]
fn test_bfs_unreachable_nodes_keep_none() {
    let g = disconnected_undirected_graph();
    assert_eq!(
        prev_node_graph_path_to_isize_vec(&bfs(&g, 0)),
        vec![-1, 0, 1, -1, 0, -1, -1, -1]
    );
}

#[test]
fn test_bfs_prev_list_always_valid() {
    let g = ten_node_undirected_graph();
    let prev = bfs(&g, 0);
    assert_eq!(prev.len(), 10);
    assert_eq!(prev[0], None);
    assert!(check_previous_node_list_valid(&g, &prev));
    let h = disconnected_undirected_graph();
    for start in 0..8 {
        assert!(check_previous_node_list_valid(&h, &bfs(&h, start)));
    }
}

#[test]
fn test_bfs_reconstructed_path_is_shortest() {
    let g = ten_node_undirected_graph();
    let prev = bfs(&g, 0);
    let path = node_list_from_prev_node_list(&prev, 9);
    assert_eq!(path, vec![0, 5, 8, 9]);
    assert!(check_node_path_valid(&g, &path));
    // node 3 sits two hops out: 0 - 2 is not an edge, the shortest walk is
    // 0, 1, 2, 3
    let path3 = node_list_from_prev_node_list(&prev, 3);
    assert_eq!(path3, vec![0, 1, 2, 3]);
    assert!(check_node_path_valid(&g, &path3));
}

#[test]
fn test_dfs_recursive_path_single_source() {
    let g = disconnected_undirected_graph();
    let prev = dfs_recursive_path(&g, 0);
    assert!(check_previous_node_list_valid(&g, &prev));
    // only the start node's partition is discovered
    assert_eq!(prev[3], None);
    assert_eq!(prev[5], None);
    assert_eq!(prev[7], None);
    assert!(prev[1].is_some() && prev[2].is_some() && prev[4].is_some());
}

#[test]
fn test_dfs_basic_records_real_tree_edges() {
    let g = ten_node_undirected_graph();
    let edges = dfs_basic(&g, 0);
    // one tree edge per non-start node of the connected graph
    assert_eq!(edges.len(), 9);
    let mut path = Vec::new();
    for (from, to) in &edges {
        path.clear();
        path.push(*from);
        path.push(*to);
        assert!(check_node_path_valid(&g, &path));
    }
}

#[test]
fn test_connected_components_connected_graph() {
    let g = ten_node_undirected_graph();
    assert_eq!(dfs_connected_components(&g), vec![0; 10]);
}

#[test]
fn test_traversals_are_deterministic() {
    let g = ten_node_undirected_graph();
    assert_eq!(bfs(&g, 3), bfs(&g, 3));
    assert_eq!(dfs_stack_path(&g, 3), dfs_stack_path(&g, 3));
}

#[test]
fn test_dfs_path_all_roots_are_component_minima() {
    let g = disconnected_undirected_graph();
    let prev = dfs_recursive_path_all(&g);
    // exactly one None root per partition: the least node of each
    assert_eq!(
        prev.iter().map(|v| v.is_none()).collect::<Vec<_>>(),
        vec![true, false, false, true, false, true, false, false]
    );
}

#[test]
fn test_dfs_basic_all_covers_every_partition() {
    let g = disconnected_undirected_graph();
    let edges = dfs_basic(&g, 0);
    // single-source search only spans the start node's partition
    assert_eq!(edges.len(), 3);
    let all_edges = graph_traversal::dfs::dfs_basic_all(&g);
    // the whole-graph sweep spans all three partitions: one tree edge per
    // node that is not a partition's least member
    assert_eq!(all_edges.len(), 5);
}

#[test]
fn test_empty_graph() {
    let g = StaticGraph::new(0, GraphType::Directed);
    assert_eq!(g.num_of_nodes(), Some(0));
    assert_eq!(dfs_connected_components(&g), Vec::<usize>::new());
    assert!(check_previous_node_list_valid(&g, &Vec::new()));
}
