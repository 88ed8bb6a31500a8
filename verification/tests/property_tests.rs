use crypto_coins_trend_analysis::computation_algorithms::{
    all_shortest_paths, compute_betweeness_centrality, compute_degree_distribution,
    compute_density, find_top_nodes, normalize_betweenness,
};
use crypto_coins_trend_analysis::data_loader::{
    TransferRecord, WindowBounds, build_window_graphs, parse_u64,
};
use crypto_coins_trend_analysis::find_connected_component::{
    dfs_component_size, largest_connected_component,
};
use crypto_coins_trend_analysis::graph::Graph;
use crypto_coins_trend_analysis::helper_algorithm::dijkstra;
use crypto_coins_trend_analysis::node_map::{NodeMap, NodeSet};
use crypto_coins_trend_analysis::ratio::Ratio;
use crypto_coins_trend_analysis::transaction_type::Transaction;

fn tx(value: u64) -> Transaction {
    Transaction::new(value, "ETH".to_string(), 1651104000)
}

fn edge(g: &mut Graph, from: &str, to: &str, value: u64) {
    g.insert_edge(&from.to_string(), &to.to_string(), tx(value));
}

#[test]
fn test_density_empty_graph_is_zero() {
    let graph = Graph::new();
    let d = compute_density(&graph);
    assert_eq!(d.num, 0);
    assert_eq!(d.den, 1);
}

#[test]
fn test_density_full_triangle() {
    let mut graph = Graph::new();
    edge(&mut graph, "A", "B", 1);
    edge(&mut graph, "A", "C", 1);
    edge(&mut graph, "B", "A", 1);
    edge(&mut graph, "B", "C", 1);
    edge(&mut graph, "C", "A", 1);
    edge(&mut graph, "C", "B", 1);
    // 6 edges out of 3 * 2 possible: density exactly 1.
    let d = compute_density(&graph);
    assert_eq!(d.num, 6);
    assert_eq!(d.den, 6);
}

#[test]
fn test_duplicate_edge_overwrites() {
    let mut graph = Graph::new();
    edge(&mut graph, "A", "B", 10);
    edge(&mut graph, "A", "B", 99);
    // Last write wins for a repeated ordered pair; no second edge appears.
    assert_eq!(graph.node_count(), 1);
    assert_eq!(graph.nodes[0].edges.len(), 1);
    assert_eq!(graph.nodes[0].edges[0].tx.value, 99);
    let d = dijkstra(&graph, "A");
    assert_eq!(d.get(&"B".to_string()), Some(&99u128));
}

#[test]
fn test_dijkstra_start_distance_zero_everywhere() {
    let mut graph = Graph::new();
    edge(&mut graph, "A", "B", 4);
    edge(&mut graph, "B", "C", 1);
    edge(&mut graph, "C", "A", 7);
    for node in ["A", "B", "C"] {
        let d = dijkstra(&graph, node);
        assert_eq!(d.get(&node.to_string()), Some(&0u128));
    }
}

#[test]
fn test_dijkstra_unreachable_absent() {
    let mut graph = Graph::new();
    edge(&mut graph, "A", "B", 4);
    graph.add_node(&"D".to_string());
    let d = dijkstra(&graph, "A");
    assert_eq!(d.get(&"D".to_string()), None);
    assert_eq!(d.len(), 2);
}

#[test]
fn test_metrics_run_twice_identical() {
    let mut graph = Graph::new();
    edge(&mut graph, "A", "B", 4);
    edge(&mut graph, "A", "C", 2);
    edge(&mut graph, "B", "C", 1);
    graph.add_node(&"C".to_string());

    let d1 = compute_density(&graph);
    let d2 = compute_density(&graph);
    assert_eq!(d1, d2);

    let s1 = dijkstra(&graph, "A");
    let s2 = dijkstra(&graph, "A");
    for node in ["A", "B", "C"] {
        assert_eq!(s1.get(&node.to_string()), s2.get(&node.to_string()));
    }

    let dd1 = compute_degree_distribution(&graph);
    let dd2 = compute_degree_distribution(&graph);
    assert_eq!(dd1, dd2);

    let c1 = largest_connected_component(&graph);
    let c2 = largest_connected_component(&graph);
    assert_eq!(c1, c2);
}

#[test]
fn test_component_of_isolated_node() {
    let mut graph = Graph::new();
    edge(&mut graph, "A", "B", 1);
    graph.add_node(&"D".to_string());
    let mut visited = NodeSet::new();
    let size = dfs_component_size(&graph, "D", &mut visited);
    assert_eq!(size, 1);
}

#[test]
fn test_component_shared_visited_set() {
    // A and C both reach B; whichever traversal starts first claims B.
    let mut graph = Graph::new();
    edge(&mut graph, "A", "B", 1);
    edge(&mut graph, "C", "B", 1);
    let largest = largest_connected_component(&graph);
    assert_eq!(largest, 2);
}

#[test]
fn test_top_nodes_ties_keep_input_order() {
    let mut centrality: NodeMap<Ratio> = NodeMap::new();
    centrality.set(&"A".to_string(), Ratio::new(1, 4));
    centrality.set(&"B".to_string(), Ratio::new(1, 4));
    centrality.set(&"C".to_string(), Ratio::new(3, 4));
    let top = find_top_nodes(&centrality, 3);
    assert_eq!(top[0].0, "C");
    assert_eq!(top[1].0, "A");
    assert_eq!(top[2].0, "B");
}

#[test]
fn test_top_nodes_request_more_than_available() {
    let mut centrality: NodeMap<Ratio> = NodeMap::new();
    centrality.set(&"A".to_string(), Ratio::new(1, 2));
    let top = find_top_nodes(&centrality, 5);
    assert_eq!(top.len(), 1);
    assert_eq!(top[0].0, "A");
}

#[test]
fn test_all_shortest_paths_unique_routes() {
    let mut graph = Graph::new();
    edge(&mut graph, "A", "B", 4);
    edge(&mut graph, "A", "C", 2);
    edge(&mut graph, "B", "C", 1);
    let paths = all_shortest_paths(&graph, "A");
    let to_c = paths.get(&"C".to_string()).unwrap();
    assert_eq!(to_c.len(), 1);
    assert_eq!(to_c[0], vec!["A".to_string(), "C".to_string()]);
    let to_b = paths.get(&"B".to_string()).unwrap();
    assert_eq!(to_b.len(), 1);
    assert_eq!(to_b[0], vec!["A".to_string(), "B".to_string()]);
}

#[test]
fn test_all_shortest_paths_collects_ties() {
    let mut graph = Graph::new();
    edge(&mut graph, "A", "B", 1);
    edge(&mut graph, "A", "C", 1);
    edge(&mut graph, "B", "D", 1);
    edge(&mut graph, "C", "D", 1);
    let paths = all_shortest_paths(&graph, "A");
    let to_d = paths.get(&"D".to_string()).unwrap();
    assert_eq!(to_d.len(), 2);
    let via_b = vec!["A".to_string(), "B".to_string(), "D".to_string()];
    let via_c = vec!["A".to_string(), "C".to_string(), "D".to_string()];
    assert!(to_d.contains(&via_b));
    assert!(to_d.contains(&via_c));
}

#[test]
fn test_betweenness_middle_of_path() {
    let mut graph = Graph::new();
    edge(&mut graph, "A", "B", 1);
    edge(&mut graph, "B", "C", 1);
    graph.add_node(&"C".to_string());
    let scores = compute_betweeness_centrality(&graph).unwrap();
    // Only B sits inside a shortest path (A -> B -> C); one path for the
    // pair, normalized by (3 - 1) * (3 - 2) = 2.
    let b = scores.get(&"B".to_string()).unwrap();
    assert_eq!(b.num as f64 / b.den as f64, 0.5);
    assert_eq!(scores.get(&"A".to_string()), None);
    assert_eq!(scores.get(&"C".to_string()), None);
}

#[test]
fn test_normalize_betweenness_divides() {
    let mut scores: NodeMap<Ratio> = NodeMap::new();
    scores.set(&"B".to_string(), Ratio::new(3, 2));
    let normalized = normalize_betweenness(&scores, 4);
    // (3/2) / ((4 - 1) * (4 - 2)) = 3/12
    let b = normalized.get(&"B".to_string()).unwrap();
    assert_eq!(b.num, 3);
    assert_eq!(b.den, 12);
}

#[test]
fn test_parse_u64_accepts_digits() {
    assert_eq!(parse_u64(b"0"), Some(0));
    assert_eq!(parse_u64(b"123"), Some(123));
    assert_eq!(parse_u64(b"007"), Some(7));
    assert_eq!(parse_u64(b"1651104000"), Some(1651104000));
    assert_eq!(parse_u64(b"18446744073709551615"), Some(u64::MAX));
}

#[test]
fn test_parse_u64_rejects_bad_input() {
    assert_eq!(parse_u64(b""), None);
    assert_eq!(parse_u64(b"12a"), None);
    assert_eq!(parse_u64(b"-5"), None);
    assert_eq!(parse_u64(b"1.5"), None);
    assert_eq!(parse_u64(b"18446744073709551616"), None);
}

fn record(from: &str, to: &str, timestamp: u64, value: u64) -> TransferRecord {
    TransferRecord {
        from_address: from.to_string(),
        to_address: to.to_string(),
        timestamp,
        contract_address: "ETH".to_string(),
        value,
    }
}

#[test]
fn test_build_window_graphs_partitions() {
    let bounds = WindowBounds {
        start_time: 1651104000,
        during_crash_time: 1651708800,
        after_crash_time: 1652400000,
        end_time: 1652918400,
    };
    let records = vec![
        record("a1", "a2", 1651104100, 50),
        record("a2", "a3", 1651708900, 100),
        record("a3", "a4", 1652400100, 150),
        record("a5", "a6", 1600000000, 10), // before every window: dropped
        record("a5", "a6", 1652918400, 10), // at the end boundary: dropped
    ];
    let (before, during, after) = build_window_graphs(&records, bounds);
    assert_eq!(before.node_count(), 1);
    assert_eq!(before.nodes[0].id, "a1");
    assert_eq!(before.nodes[0].edges[0].to, "a2");
    assert_eq!(before.nodes[0].edges[0].tx.value, 50);
    assert_eq!(during.node_count(), 1);
    assert_eq!(during.nodes[0].id, "a2");
    assert_eq!(after.node_count(), 1);
    assert_eq!(after.nodes[0].id, "a3");
}

#[test]
fn test_build_window_graphs_boundaries() {
    let bounds = WindowBounds {
        start_time: 100,
        during_crash_time: 200,
        after_crash_time: 300,
        end_time: 400,
    };
    // Lower bounds are inclusive, upper bounds exclusive.
    let records = vec![
        record("a", "b", 100, 1),
        record("c", "d", 199, 1),
        record("e", "f", 200, 1),
        record("g", "h", 300, 1),
        record("i", "j", 399, 1),
        record("k", "l", 99, 1),
        record("m", "n", 400, 1),
    ];
    let (before, during, after) = build_window_graphs(&records, bounds);
    assert_eq!(before.node_count(), 2);
    assert_eq!(during.node_count(), 1);
    assert_eq!(during.nodes[0].id, "e");
    assert_eq!(after.node_count(), 2);
    assert_eq!(after.nodes[0].id, "g");
    assert_eq!(after.nodes[1].id, "i");
}

#[test]
fn test_build_window_graphs_last_write_wins() {
    let bounds = WindowBounds {
        start_time: 100,
        during_crash_time: 200,
        after_crash_time: 300,
        end_time: 400,
    };
    let records = vec![record("a", "b", 150, 1), record("a", "b", 160, 9)];
    let (before, _, _) = build_window_graphs(&records, bounds);
    assert_eq!(before.node_count(), 1);
    assert_eq!(before.nodes[0].edges.len(), 1);
    assert_eq!(before.nodes[0].edges[0].tx.value, 9);
    assert_eq!(before.nodes[0].edges[0].tx.timestamp, 160);
}

#[test]
fn test_top_nodes_mixed_denominators() {
    let mut centrality: NodeMap<Ratio> = NodeMap::new();
    centrality.set(&"A".to_string(), Ratio::new(1, 2));
    centrality.set(&"B".to_string(), Ratio::new(3, 4));
    centrality.set(&"C".to_string(), Ratio::new(2, 3));
    let top = find_top_nodes(&centrality, 3);
    // Ordered by exact fraction value: 3/4 > 2/3 > 1/2.
    assert_eq!(top[0].0, "B");
    assert_eq!(top[1].0, "C");
    assert_eq!(top[2].0, "A");
}

#[test]
fn test_build_window_graphs_no_record_cap() {
    let bounds = WindowBounds {
        start_time: 100,
        during_crash_time: 200,
        after_crash_time: 300,
        end_time: 400,
    };
    // Far more records than any fixed cap: every in-window record lands.
    let mut records = Vec::new();
    for i in 0..12000u64 {
        records.push(record(&format!("s{}", i), "hub", 150, 1));
    }
    let (before, during, after) = build_window_graphs(&records, bounds);
    assert_eq!(before.node_count(), 12000);
    assert_eq!(during.node_count(), 0);
    assert_eq!(after.node_count(), 0);
}
