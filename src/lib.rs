//! A keyframe timeline for one animated scalar: ordered easing segments
//! anchored at an absolute start time, with verified editing operations
//! (insert a keyframe, remove one, merge two timelines) and lookup of the
//! segment that is active at a given instant.
//!
//! Times are whole nanoseconds (`i128`). Animated values are carried as
//! [`scalar::Scalar`], the bit pattern of an `f32`: the timeline stores and
//! moves values but never computes with them, so that evaluating an easing
//! curve is left to the caller.

pub mod easing;
pub mod laws;
pub mod model;
pub mod scalar;
pub mod timeline;

pub use easing::{AnimationLinker, ControlPoint};
pub use scalar::Scalar;
pub use timeline::{ActiveSegment, Animation, Linker, StyleToAnimate};
