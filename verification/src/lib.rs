//! State-space search for a grid puzzle in which a tractor pushes boulders
//! into holes: a verified reachability flood-fill, a push-move generator,
//! an explorer that enumerates every configuration reachable by legal
//! pushes into a graph of distinct configurations, and a breadth-first
//! shortest-path tree over that graph.

pub mod cell;
pub mod grid;
pub mod shortest_path;
pub mod state_graph;
