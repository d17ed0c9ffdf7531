//! Structural statistics of a static directed graph: the shortest-path
//! distance between two vertices, reachability within a bounded number of
//! hops, and the aggregates built on them.
//!
//! - [`graph`]: the adjacency structure and its model, a map from a vertex
//!   to the sequence of its neighbours.
//! - [`edge_list`]: the text format from which a graph is read.
//! - [`walk`]: walks, reachability and distance, over the model.
//! - [`search`]: breadth-first search for the distance between two vertices.
//! - [`hops`]: search in layers, up to a number of them.
//! - [`stats`]: the percentage of vertices within a number of hops, and the
//!   mean distance over a sample.
//! - [`sample`]: a random sample of the vertices.
//!
//! The contracts of the executable functions are stated over the model and
//! proved.

pub mod graph;
pub mod edge_list;
pub mod walk;
pub mod search;
pub mod hops;
pub mod stats;
pub mod sample;

pub use edge_list::{
    parse_edge_list, parse_graph, parse_line, LineMeaning, OnMalformed, ParseError,
};
pub use graph::Graph;
pub use hops::{reachable_within_k_hops, six_degrees_of_separation};
pub use sample::{sample_vertices, vertex_keys};
pub use search::{breadth_first_search, dequeues_before, distance, Found};
pub use stats::{
    average_distance, count_within_k_hops, percentage_within_k_hops, percentage_within_six_degrees,
    Ratio,
};
