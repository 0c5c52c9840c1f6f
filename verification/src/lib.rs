//! Single-source shortest paths on a weighted directed graph, by Dijkstra's
//! algorithm with an optional data-parallel selection and relaxation step.
//!
//! The graph is an adjacency matrix of positive weights. A distance is
//! `Some(d)` for a vertex that can be reached and `None` for one that cannot.
//!
//! - `graph`: the graph store, built from a matrix or at random.
//! - `paths`: what a path, its weight and a shortest distance are.
//! - `select`, `relax`: the two steps of a round, each also in parallel.
//! - `state`: what holds between rounds, and why the result is right.
//! - `solver`: the rounds, and `shortest_paths`.
//! - `queue`: the same distances by way of a priority queue.
//! - `pool`, `random`: the thread pool and the random numbers.

pub mod error;
pub mod paths;
pub mod pool;
pub mod select;
pub mod random;
pub mod graph;
pub mod relax;
pub mod state;
pub mod solver;
pub mod queue;
