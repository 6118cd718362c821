use graph_traversal::graph::GraphType;
use graph_traversal::graph::StaticGraph;
use graph_traversal::tracker::DynamicTracker;
use graph_traversal::tracker::StaticTracker;

#[test]
fn test_dynamic_tracker() {
    let mut tracker: DynamicTracker = DynamicTracker::new();
    assert!(!tracker.has_seen(&"a".to_string()));
    tracker.set_seen(&"a".to_string());
    assert!(tracker.has_seen(&"a".to_string()));
    assert!(!tracker.has_seen(&"b".to_string()));
    tracker.set_prev(&"b".to_string(), &"a".to_string());
    assert!(!tracker.has_seen(&"b".to_string()));

    assert_eq!(tracker.prev_node_list(), vec![None, Some(0)]);
    let id_map = tracker.label_to_id_map().unwrap();
    assert_eq!(id_map[0], ("a".to_string(), 0));
    assert_eq!(id_map[1], ("b".to_string(), 1));
}

#[test]
fn test_static_tracker_seen_flips_once() {
    let mut tracker = StaticTracker::new(3);
    assert!(!tracker.has_seen(1));
    tracker.set_seen(1);
    assert!(tracker.has_seen(1));
    // repeated set_seen is a no-op on the seen state
    tracker.set_seen(1);
    assert!(tracker.has_seen(1));
    assert!(!tracker.has_seen(0));
    assert!(!tracker.has_seen(2));
}

#[test]
fn test_static_tracker_prev_order_independent() {
    // set_prev may come before or after set_seen for the same node
    let mut early = StaticTracker::new(2);
    early.set_prev(1, 0);
    early.set_seen(1);
    let mut late = StaticTracker::new(2);
    late.set_seen(1);
    late.set_prev(1, 0);
    assert_eq!(early.prev_node_list(), late.prev_node_list());
    assert_eq!(early.prev_node_list(), vec![None, Some(0)]);
}

#[test]
fn test_dynamic_tracker_set_seen_idempotent() {
    let mut tracker: DynamicTracker = DynamicTracker::new();
    tracker.set_seen(&"x".to_string());
    tracker.set_seen(&"x".to_string());
    assert!(tracker.has_seen(&"x".to_string()));
    assert_eq!(tracker.prev_node_list(), vec![None]);
}

#[test]
fn test_visited_tracker_matches_graph_size() {
    let g = StaticGraph::new(4, GraphType::Directed);
    let tracker = g.visited_tracker();
    assert_eq!(tracker.prev_node_list(), vec![None; 4]);
}

#[test]
fn test_static_tracker_overwrites_prev() {
    let mut tracker = StaticTracker::new(3);
    tracker.set_prev(2, 0);
    tracker.set_prev(2, 1);
    assert_eq!(tracker.prev_node_list(), vec![None, None, Some(1)]);
    assert_eq!(tracker.label_to_id_map(), None);
}

#[test]
fn test_dynamic_tracker_allocation_order() {
    let mut tracker: DynamicTracker = DynamicTracker::new();
    let first = tracker.get_or_allocate_id(&"north".to_string());
    let second = tracker.get_or_allocate_id(&"south".to_string());
    let again = tracker.get_or_allocate_id(&"north".to_string());
    assert_eq!(first, 0);
    assert_eq!(second, 1);
    assert_eq!(again, 0);
    assert_eq!(tracker.get_id(&"south".to_string()), 1);
    let fresh = tracker.allocate(&"west".to_string());
    assert_eq!(fresh, 2);
    assert_eq!(tracker.prev_node_list(), vec![None, None, None]);
}
