//! Axis-aligned geometry in absolute document units.
//!
//! All coordinates are signed 64-bit integers.  Coordinates stored inside
//! fragments are bounded by [`COORD_LIMIT`] so that translating a bounding box
//! by a bounded chain of frame offsets can never overflow.

use vstd::prelude::*;

verus! {

/// Largest magnitude allowed for a coordinate or a child offset stored in a
/// fragment.  Bounded coordinates keep every translation that the renderer
/// performs far away from `i64` overflow.
pub const COORD_LIMIT: i64 = 0x100_0000_0000;

/// Deepest nesting of frames the renderer follows before it gives up on a
/// region; also bounds the accumulated translation along any render path.
pub const MAX_RENDER_DEPTH: u64 = 64;

/// An axis-aligned rectangle, `x_min..x_max` by `y_min..y_max`.
#[derive(Clone, Copy, Debug, PartialEq, Eq, Structural)]
pub struct Rect {
    pub x_min: i64,
    pub y_min: i64,
    pub x_max: i64,
    pub y_max: i64,
}

/// A point on a path, in coordinates local to the owning fragment.
#[derive(Clone, Copy, Debug, PartialEq, Eq, Structural)]
pub struct Point {
    pub x: i64,
    pub y: i64,
}

impl Rect {
    /// A rectangle is well-formed when its minima do not exceed its maxima.
    pub open spec fn wf(self) -> bool {
        self.x_min <= self.x_max && self.y_min <= self.y_max
    }

    /// A rectangle stored in a fragment must also keep its coordinates within
    /// [`COORD_LIMIT`].
    pub open spec fn bounded(self) -> bool {
        &&& self.wf()
        &&& -COORD_LIMIT <= self.x_min
        &&& self.x_max <= COORD_LIMIT
        &&& -COORD_LIMIT <= self.y_min
        &&& self.y_max <= COORD_LIMIT
    }

    /// Two rectangles intersect when they share interior area; rectangles
    /// that merely touch along an edge do not count as intersecting.
    pub open spec fn spec_intersects(self, other: Rect) -> bool {
        &&& self.x_min < other.x_max
        &&& other.x_min < self.x_max
        &&& self.y_min < other.y_max
        &&& other.y_min < self.y_max
    }

    /// Whether the rectangle may be stored in a fragment.
    pub fn check_bounded(&self) -> (r: bool)
        ensures
            r == self.bounded(),
    {
        self.x_min <= self.x_max && self.y_min <= self.y_max && self.x_min >= -COORD_LIMIT
            && self.x_max <= COORD_LIMIT && self.y_min >= -COORD_LIMIT && self.y_max
            <= COORD_LIMIT
    }

    /// Axis-aligned intersection test; pure comparisons, so it is total for
    /// every pair of rectangles.
    pub fn intersects(&self, other: &Rect) -> (r: bool)
        ensures
            r == self.spec_intersects(*other),
    {
        self.x_min < other.x_max && other.x_min < self.x_max && self.y_min < other.y_max
            && other.y_min < self.y_max
    }
}

} // verus!
