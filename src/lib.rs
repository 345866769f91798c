//! A directed, weighted multigraph over `i64` nodes with optional `u64` edge
//! weights, and the classic algorithms on it: breadth-first and depth-first
//! search, cycle detection and Dijkstra's shortest paths.
//!
//! Every operation is verified against a model of the graph (`GraphModel`):
//! its nodes and its edges as strictly increasing sequences.

use vstd::prelude::*;

pub mod graph;
pub mod queries;
pub mod paths;
pub mod levels;
pub mod algos;
pub mod cycle;
pub mod heap;
pub mod shortest;
pub mod laws;

pub use graph::{Edge, Graph, GraphError, GraphModel};

verus! {

} // verus!
