use vstd::prelude::*;

verus! {

/// A connection drawn as a straight line between its two ends.
#[derive(Debug, Clone, Copy, PartialEq, Eq, Structural)]
pub struct Direct;

/// A connection drawn as horizontal and vertical segments only.
#[derive(Debug, Clone, Copy, PartialEq, Eq, Structural)]
pub struct AxisAligned;

/// A connection drawn as a cubic curve.
#[derive(Debug, Clone, Copy, PartialEq, Eq, Structural)]
pub struct Bezier;

} // verus!
