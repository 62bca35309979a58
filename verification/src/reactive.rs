//! Observable state and the values derived from it.
//!
//! State lives in cells. Signals are derived from cells and from other
//! signals by functions. Cells and signals are the nodes of a graph, and a
//! change reaches the nodes that depend on it in waves: every write to a
//! cell that was made before a wave starts is seen by every function that
//! the wave runs, and each function runs at most once in a wave.

pub mod graph;
pub mod wiring;
