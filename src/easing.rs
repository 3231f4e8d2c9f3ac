use vstd::prelude::*;
use crate::scalar::Scalar;

verus! {

/// A control point of a cubic Bezier easing curve whose end points are
/// fixed at `(0, 0)` and `(1, 1)`.
#[derive(Clone, Copy, Debug, PartialEq, Eq, Hash, Structural)]
pub struct ControlPoint {
    pub x: Scalar,
    pub y: Scalar,
}

impl ControlPoint {
    pub fn new(x: Scalar, y: Scalar) -> (r: ControlPoint)
        ensures
            r.x == x,
            r.y == y,
    {
        ControlPoint { x, y }
    }
}

/// How a segment moves from its start value to its end value.
#[derive(Clone, Copy, Debug, PartialEq, Eq, Hash, Structural)]
pub enum AnimationLinker {
    /// Cubic Bezier easing through two control points.
    Bezier(ControlPoint, ControlPoint),
    /// Progress raised to the given exponent.
    Power(Scalar),
    /// Progress taken as it is.
    Linear,
    /// Holds the start value over the whole segment; the end value is seen
    /// only where the next segment starts.
    Mutation,
}

impl Default for AnimationLinker {
    fn default() -> (r: AnimationLinker)
        ensures
            r == AnimationLinker::Linear,
    {
        AnimationLinker::Linear
    }
}

} // verus!
