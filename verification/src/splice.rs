//! The flat primitive buffer and the ranges that fragments own in it.

pub mod engine;
pub mod range;
pub mod rerender;
pub mod table;
pub mod wave;
