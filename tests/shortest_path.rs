use flowline::graph::{build_benchmark_graph, Graph};
use flowline::shortest_path::{dijkstra, format_path, reconstruct_path};

#[test]
fn benchmark_shortest_path() {
    let g = build_benchmark_graph();
    let a = g.node_index("A").unwrap();
    let e = g.node_index("E").unwrap();
    let (cost, path) = dijkstra(&g, a, e).unwrap();
    assert_eq!(cost, 7);
    assert_eq!(path, vec![0, 1, 3, 4]);
    assert_eq!(format_path(&g, &path), "A -> B -> D -> E");
}

#[test]
fn unreachable_target_gives_none() {
    let mut g = Graph::new(vec!["p", "q", "r"]);
    g.add_edge(0, 1, 3);
    assert_eq!(dijkstra(&g, 0, 2), None);
    assert_eq!(dijkstra(&g, 1, 0), None);
}

#[test]
fn source_is_target() {
    let g = build_benchmark_graph();
    assert_eq!(dijkstra(&g, 2, 2), Some((0, vec![2])));
}

#[test]
fn reconstruct_follows_predecessors() {
    let prev = vec![None, Some(0), Some(1), None];
    assert_eq!(reconstruct_path(&prev, 0, 2), vec![0, 1, 2]);
    assert_eq!(reconstruct_path(&prev, 0, 3), vec![3]);
    let cyclic = vec![Some(1), Some(0)];
    assert_eq!(reconstruct_path(&cyclic, 5, 0).len(), 2);
}

#[test]
fn format_empty_and_single() {
    let g = build_benchmark_graph();
    assert_eq!(format_path(&g, &[]), "");
    assert_eq!(format_path(&g, &[2]), "C");
}
