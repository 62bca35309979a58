//! Fragments, primitives, geometry and layout.

pub mod docks;
pub mod elements;
pub mod geometry;
pub mod layout;
pub mod ui_types;
pub mod utils;
