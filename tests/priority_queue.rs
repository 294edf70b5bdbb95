use flowline::graph::{build_benchmark_graph, Edge, Graph};
use flowline::heap::{HeapEntry, PositionMap};
use flowline::priority_queue::MinPriorityQueue;

#[test]
fn test_insert_and_extract() {
    let mut pq = MinPriorityQueue::new(5);
    pq.insert(0, 10);
    pq.insert(1, 3);
    pq.insert(2, 7);

    let first = pq.extract_min().unwrap();
    println!("Extracted: item={}, priority={}", first.item, first.priority);
}

#[test]
fn extracts_in_priority_order() {
    let mut pq = MinPriorityQueue::new(5);
    pq.insert(0, 10);
    pq.insert(1, 3);
    pq.insert(2, 7);
    assert_eq!(pq.len(), 3);
    assert_eq!(pq.extract_min(), Some(HeapEntry::new(1, 3)));
    assert_eq!(pq.extract_min(), Some(HeapEntry::new(2, 7)));
    assert_eq!(pq.extract_min(), Some(HeapEntry::new(0, 10)));
    assert_eq!(pq.extract_min(), None);
    assert!(pq.is_empty());
}

#[test]
fn decrease_key_reorders() {
    let mut pq = MinPriorityQueue::new(4);
    pq.insert(0, 5);
    pq.insert(1, 8);
    pq.insert(2, 9);
    pq.decrease_key(2, 1);
    assert!(pq.contains(2));
    assert_eq!(pq.extract_min(), Some(HeapEntry::new(2, 1)));
    assert!(!pq.contains(2));
    pq.decrease_key(3, 0);
    assert_eq!(pq.len(), 2);
}

#[test]
fn position_map_ignores_items_past_capacity() {
    let mut m = PositionMap::new(3);
    m.set(1, 7);
    m.set(5, 2);
    assert_eq!(m.get(1), Some(7));
    assert_eq!(m.get(5), None);
    assert!(m.contains(1));
    m.remove(1);
    assert!(!m.contains(1));
}

#[test]
fn benchmark_graph_shape() {
    let g = build_benchmark_graph();
    assert_eq!(g.num_nodes(), 5);
    assert_eq!(g.node_index("A"), Some(0));
    assert_eq!(g.node_index("E"), Some(4));
    assert_eq!(g.node_index("Z"), None);
    assert_eq!(g.label(3), "D");
    assert_eq!(g.neighbors(0), &[Edge { to: 1, weight: 2 }, Edge { to: 2, weight: 10 }]);
    assert!(g.neighbors(4).is_empty());
}

#[test]
fn graph_add_edge_appends() {
    let mut g = Graph::new(vec!["x", "y"]);
    g.add_edge(1, 0, 3);
    g.add_edge(1, 1, 4);
    assert_eq!(g.neighbors(1), &[Edge { to: 0, weight: 3 }, Edge { to: 1, weight: 4 }]);
    assert!(g.neighbors(0).is_empty());
}
