//! Windowed transaction-graph analytics.
//!
//! The library partitions a time-stamped stream of transactions into three
//! disjoint time windows, builds one directed weighted graph per window, and
//! computes graph metrics (density, degree distribution, centrality,
//! shortest paths, connected components) on those graphs.
//!
//! Edge weights and metric values are exact: a transaction value is an
//! unsigned integer amount, and ratio-valued metrics are returned as exact
//! integer fractions rather than floating-point approximations.

pub mod computation_algorithms;
pub mod data_loader;
pub mod find_connected_component;
pub mod graph;
pub mod helper_algorithm;
pub mod node_map;
pub mod ratio;
pub mod transaction_type;
