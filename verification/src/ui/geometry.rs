//! Directions, vectors and boxes in whole units.

use vstd::prelude::*;

verus! {

/// Direction of flow, taking into account locales.
#[derive(Debug, Clone, Copy, PartialEq, Eq, Structural)]
pub enum FlowDirection {
    Forward,
    Backward,
    Horizontal,
    HorizontalReverse,
    Vertical,
    VerticalReverse,
    LeftToRight,
    TopToBottom,
    RightToLeft,
    BottomToTop,
}

impl FlowDirection {
    /// The direction that runs the other way along the same axis.
    pub open spec fn opposite(self) -> FlowDirection {
        match self {
            FlowDirection::Forward => FlowDirection::Backward,
            FlowDirection::Backward => FlowDirection::Forward,
            FlowDirection::Horizontal => FlowDirection::HorizontalReverse,
            FlowDirection::HorizontalReverse => FlowDirection::Horizontal,
            FlowDirection::Vertical => FlowDirection::VerticalReverse,
            FlowDirection::VerticalReverse => FlowDirection::Vertical,
            FlowDirection::LeftToRight => FlowDirection::RightToLeft,
            FlowDirection::RightToLeft => FlowDirection::LeftToRight,
            FlowDirection::TopToBottom => FlowDirection::BottomToTop,
            FlowDirection::BottomToTop => FlowDirection::TopToBottom,
        }
    }

    /// The direction that runs the other way along the same axis.
    pub fn reversed(self) -> (other: FlowDirection)
        ensures
            other == self.opposite(),
            other.opposite() == self,
    {
        match self {
            FlowDirection::Forward => FlowDirection::Backward,
            FlowDirection::Backward => FlowDirection::Forward,
            FlowDirection::Horizontal => FlowDirection::HorizontalReverse,
            FlowDirection::HorizontalReverse => FlowDirection::Horizontal,
            FlowDirection::Vertical => FlowDirection::VerticalReverse,
            FlowDirection::VerticalReverse => FlowDirection::Vertical,
            FlowDirection::LeftToRight => FlowDirection::RightToLeft,
            FlowDirection::RightToLeft => FlowDirection::LeftToRight,
            FlowDirection::TopToBottom => FlowDirection::BottomToTop,
            FlowDirection::BottomToTop => FlowDirection::TopToBottom,
        }
    }
}

/// Vector that aligns itself to the basis of the parent's flow direction.
#[derive(Debug, Clone, Copy, PartialEq, Eq, Structural)]
pub struct VectorEmbedded {
    pub flow_axis: i32,
    pub cross_axis: i32,
}

impl VectorEmbedded {
    /// The vector of the given extents along and across the flow.
    pub fn new(flow_axis: i32, cross_axis: i32) -> (vector: Self)
        ensures
            vector == (VectorEmbedded { flow_axis, cross_axis }),
    {
        VectorEmbedded { flow_axis, cross_axis }
    }
}

/// Vector that aligns itself with the basis of the screen.
#[derive(Debug, Clone, Copy, PartialEq, Eq, Structural)]
pub struct VectorCartesian {
    pub x: i32,
    pub y: i32,
}

impl VectorCartesian {
    /// The vector of the given horizontal and vertical extents.
    pub fn new(x: i32, y: i32) -> (vector: Self)
        ensures
            vector == (VectorCartesian { x, y }),
    {
        VectorCartesian { x, y }
    }
}

/// A vector in one of the two bases.
#[derive(Debug, Clone, Copy, PartialEq, Eq, Structural)]
pub enum UIVector {
    InFlow(VectorEmbedded),
    Cartesian(VectorCartesian),
}

/// Axis-aligned bounding box specified in UIVectors.
#[derive(Debug, Clone, Copy, PartialEq, Eq, Structural)]
pub struct UIAABB {
    pub position: UIVector,
    pub size: UIVector,
}

impl UIAABB {
    /// The empty box at the origin of the screen.
    pub open spec fn nowhere() -> UIAABB {
        UIAABB {
            position: UIVector::Cartesian(VectorCartesian { x: 0, y: 0 }),
            size: UIVector::Cartesian(VectorCartesian { x: 0, y: 0 }),
        }
    }

    /// The box of the given size at the given position.
    pub fn new(position: UIVector, size: UIVector) -> (aabb: Self)
        ensures
            aabb == (UIAABB { position, size }),
    {
        UIAABB { position, size }
    }

    /// The empty box at the origin of the screen, which a fragment has
    /// before a container gives it its place.
    pub fn unplaced() -> (aabb: Self)
        ensures
            aabb == Self::nowhere(),
    {
        UIAABB {
            position: UIVector::Cartesian(VectorCartesian { x: 0, y: 0 }),
            size: UIVector::Cartesian(VectorCartesian { x: 0, y: 0 }),
        }
    }
}

} // verus!
