//! The types of geometry under the names that layouts know them by.

use vstd::prelude::*;
use super::geometry::FlowDirection;

pub use super::geometry::{UIVector, VectorCartesian, VectorEmbedded, UIAABB};

verus! {

/// Direction of flow, taking into account locales.
pub type UIFlowDirection = FlowDirection;

} // verus!
