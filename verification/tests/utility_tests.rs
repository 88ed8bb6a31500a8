use crypto_coins_trend_analysis::computation_algorithms::{
    compute_centrality, compute_degree_distribution, compute_density, compute_statistics,
    find_top_nodes, normalize_degree,
};
use crypto_coins_trend_analysis::find_connected_component::{
    dfs_component_size, largest_connected_component,
};
use crypto_coins_trend_analysis::graph::Graph;
use crypto_coins_trend_analysis::helper_algorithm::dijkstra;
use crypto_coins_trend_analysis::node_map::{NodeMap, NodeSet};
use crypto_coins_trend_analysis::ratio::Ratio;
use crypto_coins_trend_analysis::transaction_type::Transaction;

#[test]
fn test_dijkstra_simple() {
    let mut graph = Graph::new();

    // Create some nodes
    graph.add_node(&"A".to_string());
    graph.add_node(&"B".to_string());
    graph.add_node(&"C".to_string());

    // Create some edges with weights (transaction values)
    graph.insert_edge(&"A".to_string(), &"B".to_string(), Transaction::new(4, "USD".to_string(), 0));
    graph.insert_edge(&"A".to_string(), &"C".to_string(), Transaction::new(2, "USD".to_string(), 0));
    graph.insert_edge(&"B".to_string(), &"C".to_string(), Transaction::new(1, "USD".to_string(), 0));

    let shortest_paths = dijkstra(&graph, "A");

    assert_eq!(shortest_paths.get(&"A".to_string()), Some(&0u128));
    assert_eq!(shortest_paths.get(&"B".to_string()), Some(&4u128));
    assert_eq!(shortest_paths.get(&"C".to_string()), Some(&2u128));
}

#[test]
fn test_dijkstra_complex() {
    let mut graph = Graph::new();

    graph.add_node(&"A".to_string());
    graph.add_node(&"B".to_string());
    graph.add_node(&"C".to_string());
    graph.add_node(&"D".to_string());

    graph.insert_edge(&"A".to_string(), &"B".to_string(), Transaction::new(4, "USD".to_string(), 0));
    graph.insert_edge(&"A".to_string(), &"C".to_string(), Transaction::new(2, "USD".to_string(), 0));
    graph.insert_edge(&"B".to_string(), &"D".to_string(), Transaction::new(5, "USD".to_string(), 0));
    graph.insert_edge(&"C".to_string(), &"D".to_string(), Transaction::new(1, "USD".to_string(), 0));

    let shortest_paths = dijkstra(&graph, "A");

    assert_eq!(shortest_paths.get(&"A".to_string()), Some(&0u128));
    assert_eq!(shortest_paths.get(&"B".to_string()), Some(&4u128));
    assert_eq!(shortest_paths.get(&"C".to_string()), Some(&2u128));
    assert_eq!(shortest_paths.get(&"D".to_string()), Some(&3u128)); // A->C->D is the shortest path
}

#[test]
fn test_transaction_new() {
    let transaction = Transaction::new(100, "ETH".to_string(), 1651104000);
    assert_eq!(transaction.value, 100);
    assert_eq!(transaction.unit, "ETH");
    assert_eq!(transaction.timestamp, 1651104000);
}

#[test]
fn test_dfs_component_size() {
    let mut graph = Graph::new();

    graph.insert_edge(
        &"A".to_string(),
        &"B".to_string(),
        Transaction::new(10, "ETH".to_string(), 1651104000),
    );
    graph.insert_edge(
        &"B".to_string(),
        &"C".to_string(),
        Transaction::new(5, "BTC".to_string(), 1651105000),
    );
    graph.add_node(&"C".to_string());

    let mut visited = NodeSet::new();

    let size = dfs_component_size(&graph, "A", &mut visited);
    assert_eq!(size, 3);
    // A -> B -> C form a connected component
}

#[test]
fn test_largest_connected_component() {
    let mut graph = Graph::new();

    graph.insert_edge(
        &"A".to_string(),
        &"B".to_string(),
        Transaction::new(10, "ETH".to_string(), 1651104000),
    );
    //A -> B

    graph.insert_edge(
        &"B".to_string(),
        &"C".to_string(),
        Transaction::new(5, "BTC".to_string(), 1651105000),
    );
    //B -> C

    graph.add_node(&"C".to_string());

    graph.add_node(&"D".to_string());

    let largest = largest_connected_component(&graph);
    assert_eq!(largest, 3);
    // Largest component is A -> B -> C
}

#[test]
fn test_compute_density() {
    let mut graph = Graph::new();

    graph.add_node(&"A".to_string());

    let d = compute_density(&graph);
    assert_eq!(d.num as f64 / d.den as f64, 0.0);

    graph.insert_edge(
        &"A".to_string(),
        &"B".to_string(),
        Transaction::new(10, "ETH".to_string(), 1651104000),
    );
    graph.add_node(&"B".to_string());

    //expected density = 0.5
    let d = compute_density(&graph);
    assert_eq!(d.num as f64 / d.den as f64, 0.5);
}

#[test]
fn test_compute_degree_distribution() {
    let mut graph = Graph::new();

    graph.insert_edge(
        &"A".to_string(),
        &"B".to_string(),
        Transaction::new(10, "ETH".to_string(), 1651104000),
    );
    graph.add_node(&"B".to_string()); // No outgoing edges from B

    let degree_distribution = compute_degree_distribution(&graph);

    // Expected: 1 node with degree 1, 1 node with degree 0
    assert_eq!(degree_distribution.get(&1), Some(&1));
    assert_eq!(degree_distribution.get(&0), Some(&1));
}

#[test]
fn test_compute_centrality() {
    let mut graph = Graph::new();

    graph.insert_edge(
        &"A".to_string(),
        &"B".to_string(),
        Transaction::new(10, "ETH".to_string(), 1651104000),
    );

    graph.insert_edge(
        &"B".to_string(),
        &"C".to_string(),
        Transaction::new(5, "BTC".to_string(), 1651105000),
    );

    graph.add_node(&"C".to_string());

    let (degree_centrality, closeness_centrality) = compute_centrality(&graph);

    // Verify degree centrality
    assert_eq!(degree_centrality.get(&"A".to_string()), Some(&1));
    assert_eq!(degree_centrality.get(&"B".to_string()), Some(&1));
    assert_eq!(degree_centrality.get(&"C".to_string()), Some(&0));

    let res: f64 = 0.0;
    // Verify closeness centrality (exact fractions)
    let a = closeness_centrality.get(&"A".to_string()).unwrap();
    let b = closeness_centrality.get(&"B".to_string()).unwrap();
    let c = closeness_centrality.get(&"C".to_string()).unwrap();
    assert!(a.num as f64 / a.den as f64 > res);
    assert!(b.num as f64 / b.den as f64 > res);
    assert_eq!(c.num as f64 / c.den as f64, res);
}

#[test]
fn test_normalize_degree() {
    let mut centrality: NodeMap<usize> = NodeMap::new();
    centrality.set(&"A".to_string(), 3);
    centrality.set(&"B".to_string(), 1);

    let max_possible_degree = 3;
    let normalized = normalize_degree(&centrality, max_possible_degree);

    let res: f64 = 1.0 / 3.0;
    let a = normalized.get(&"A".to_string()).unwrap();
    let b = normalized.get(&"B".to_string()).unwrap();
    assert_eq!(a.num as f64 / a.den as f64, 1.0);
    assert_eq!(b.num as f64 / b.den as f64, res);
}

#[test]
fn test_compute_statistics() {
    let mut centrality: NodeMap<Ratio> = NodeMap::new();
    centrality.set(&"A".to_string(), Ratio::new(1, 1));
    centrality.set(&"B".to_string(), Ratio::new(2, 1));
    centrality.set(&"C".to_string(), Ratio::new(3, 1));

    let (mean, variance) = compute_statistics(&centrality);

    // Expected mean: (1 + 2 + 3) / 3 = 2.0
    assert_eq!(mean.num as f64 / mean.den as f64, 2.0);

    // Expected variance: [(1-2)^2 + (2-2)^2 + (3-2)^2] / 3 = 2/3
    assert_eq!(variance.num as f64 / variance.den as f64, 2.0 / 3.0);
}

#[test]
fn test_find_top_nodes() {
    let mut centrality: NodeMap<Ratio> = NodeMap::new();
    centrality.set(&"A".to_string(), Ratio::new(5, 10));
    centrality.set(&"B".to_string(), Ratio::new(10, 10));
    centrality.set(&"C".to_string(), Ratio::new(8, 10));

    let top_nodes = find_top_nodes(&centrality, 2);

    // Expected: B and C (top 2 nodes by centrality)
    assert_eq!(top_nodes.len(), 2);
    assert_eq!(top_nodes[0].0, "B");
    assert_eq!(top_nodes[1].0, "C");
}
