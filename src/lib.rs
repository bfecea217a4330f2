//! Search for a low-cost connected subtree of `k` nodes (a k-MST) in a
//! weighted undirected graph.
//!
//! Weights are non-negative integers and costs exact fractions. Verified here:
//! the graph cost model (all-pairs distances and the diameter-based
//! adjustment), Prim's algorithm over a subset of nodes, the candidate tree
//! with its cached cost, normalisation factor and one-swap neighbour, the
//! discrete part of a population member (which nodes are in its tree, the
//! random index draws, the swap step), and the decoding of the command line
//! and of the edge-list input.

pub mod edge;
pub mod cost;
pub mod graph;
pub mod tree;
pub mod random;
pub mod whale;
pub mod read_input;
