//! Breadth-first and depth-first traversal of graphs keyed by integer node
//! identifiers, verified with Verus.
//!
//! [`Graph`] is an adjacency-list graph, directed or undirected. Over it
//! stand [`Graph::bfs`], [`Graph::shortest_path_bfs`],
//! [`Graph::bfs_distances`], [`Graph::dfs`] and [`Graph::dfs_iterative`].
//! Each traversal returns exactly the visiting order that its rule
//! determines (see [`Traversal`] and [`Graph::visit_order`]); the module
//! `laws` states what follows for every graph and every start node.

pub mod bfs;
pub mod determined;
pub mod dfs;
pub mod graph;
pub mod laws;
pub mod levels;
pub mod order;
pub mod paths;
pub mod stack;
pub mod tree;
pub mod weighted;

pub use graph::{Graph, GraphView};
pub use order::Traversal;
pub use weighted::{WeightedGraph, WeightedGraphView};
