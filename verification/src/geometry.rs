//! Plain geometric value types, generic over a scalar unit.
//!
//! These records carry no behaviour of their own: they are the payload the
//! compositor batches and the rendering backend consumes verbatim.

use vstd::prelude::*;

verus! {

/// A position in two-dimensional space.
#[derive(Debug, Clone, Copy, PartialEq, Eq)]
pub struct Point<T: Copy> {
    pub x: T,
    pub y: T,
}

/// A two-dimensional extent.
#[derive(Debug, Clone, Copy, PartialEq, Eq)]
pub struct Size<T: Copy> {
    pub width: T,
    pub height: T,
}

/// An axis-aligned rectangle given by its origin and size.
#[derive(Debug, Clone, Copy, PartialEq, Eq)]
pub struct Bounds<T: Copy> {
    pub origin: Point<T>,
    pub size: Size<T>,
}

/// One value per corner of a rectangle, e.g. corner radii.
#[derive(Debug, Clone, Copy, PartialEq, Eq)]
pub struct Corners<T: Copy> {
    pub top_left: T,
    pub top_right: T,
    pub bottom_left: T,
    pub bottom_right: T,
}

/// One value per edge of a rectangle, e.g. border widths.
#[derive(Debug, Clone, Copy, PartialEq, Eq)]
pub struct Edges<T: Copy> {
    pub top: T,
    pub right: T,
    pub bottom: T,
    pub left: T,
}

} // verus!
