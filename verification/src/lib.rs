//! A verified grid-graph pathfinding library for tile-based games.
//!
//! The library keeps a mutable graph over a fixed grid of cells, one node per
//! cell, each with a walkability flag and four-directional adjacency.  On top
//! of it, a path sequencer stitches breadth-first shortest paths through an
//! ordered list of waypoints (start, checkpoints, end) into a single
//! committed route, and serves that route step by step to movement logic.

pub mod graph;
pub mod route;
pub mod search;
