//! Conversions between the compiler's plain values and the vector IR.
//!
//! The compiler side hands the library tuples of machine integers; these
//! traits turn them into IR values and back.  The fallible pair rejects
//! values the IR cannot hold, such as coordinates beyond the limit.

use crate::geom::{Point, Rect, COORD_LIMIT};
use crate::ir::{ChildRef, ContentId, FontVariant};
use vstd::prelude::*;

verus! {

/// Conversion from a compiler-side value into an IR value.
pub trait FromTypst<T>: Sized {
    fn from_typst(value: T) -> Self;
}

/// Conversion from an IR value into a compiler-side value.
pub trait IntoTypst<T>: Sized {
    fn into_typst(self) -> T;
}

impl<T, U> IntoTypst<U> for T where U: FromTypst<T> {
    fn into_typst(self) -> U {
        U::from_typst(self)
    }
}

/// Fallible conversion from a compiler-side value into an IR value.
pub trait TryFromTypst<T>: Sized {
    type Error;

    fn try_from_typst(value: T) -> Result<Self, Self::Error>;
}

/// Fallible conversion from an IR value into a compiler-side value.
pub trait TryIntoTypst<T>: Sized {
    type Error;

    fn try_into_typst(self) -> Result<T, Self::Error>;
}

impl<T, U> TryIntoTypst<U> for T where U: TryFromTypst<T> {
    type Error = U::Error;

    fn try_into_typst(self) -> Result<U, Self::Error> {
        U::try_from_typst(self)
    }
}

/// Why a compiler-side value cannot enter the IR.
#[derive(Clone, Copy, Debug, PartialEq, Eq, Structural)]
pub enum CastError {
    /// A coordinate lies outside the IR's coordinate limit.
    OutOfRange,
}

impl FromTypst<(i64, i64)> for Point {
    /// A point from an `(x, y)` pair.
    fn from_typst(value: (i64, i64)) -> (r: Self)
        ensures
            r == (Point { x: value.0, y: value.1 }),
    {
        Point { x: value.0, y: value.1 }
    }
}

impl FromTypst<(i64, i64, i64, i64)> for Rect {
    /// A rectangle from an `(x_min, y_min, x_max, y_max)` tuple.
    fn from_typst(value: (i64, i64, i64, i64)) -> (r: Self)
        ensures
            r == (Rect { x_min: value.0, y_min: value.1, x_max: value.2, y_max: value.3 }),
    {
        Rect { x_min: value.0, y_min: value.1, x_max: value.2, y_max: value.3 }
    }
}

impl IntoTypst<(i64, i64, i64, i64)> for Rect {
    /// The `(x_min, y_min, x_max, y_max)` tuple of a rectangle.
    fn into_typst(self) -> (i64, i64, i64, i64) {
        (self.x_min, self.y_min, self.x_max, self.y_max)
    }
}

impl FromTypst<(ContentId, i64, i64)> for ChildRef {
    /// A child reference from an `(identity, dx, dy)` triple.
    fn from_typst(value: (ContentId, i64, i64)) -> (r: Self)
        ensures
            r == (ChildRef { id: value.0, dx: value.1, dy: value.2 }),
    {
        ChildRef { id: value.0, dx: value.1, dy: value.2 }
    }
}

impl FromTypst<(u16, u16, u16)> for FontVariant {
    /// A font variant from a `(style, weight, stretch)` triple.
    fn from_typst(value: (u16, u16, u16)) -> (r: Self)
        ensures
            r == (FontVariant { style: value.0, weight: value.1, stretch: value.2 }),
    {
        FontVariant { style: value.0, weight: value.1, stretch: value.2 }
    }
}

impl TryFromTypst<(i64, i64, i64, i64)> for Rect {
    type Error = CastError;

    /// A bounded rectangle from an `(x_min, y_min, x_max, y_max)` tuple;
    /// rejected exactly when it cannot be stored in a fragment.
    fn try_from_typst(value: (i64, i64, i64, i64)) -> (r: Result<Self, CastError>)
        ensures
            match r {
                Ok(rect) => rect == (Rect {
                    x_min: value.0,
                    y_min: value.1,
                    x_max: value.2,
                    y_max: value.3,
                }) && rect.bounded(),
                Err(CastError::OutOfRange) => !(Rect {
                    x_min: value.0,
                    y_min: value.1,
                    x_max: value.2,
                    y_max: value.3,
                }).bounded(),
            },
    {
        let r = Rect { x_min: value.0, y_min: value.1, x_max: value.2, y_max: value.3 };
        if r.x_min <= r.x_max && r.y_min <= r.y_max && r.x_min >= -COORD_LIMIT && r.x_max
            <= COORD_LIMIT && r.y_min >= -COORD_LIMIT && r.y_max <= COORD_LIMIT {
            Ok(r)
        } else {
            Err(CastError::OutOfRange)
        }
    }
}

impl TryFromTypst<(i64, i64)> for Point {
    type Error = CastError;

    /// A bounded point from an `(x, y)` pair; rejected exactly when it
    /// cannot be stored in a shape.
    fn try_from_typst(value: (i64, i64)) -> (r: Result<Self, CastError>)
        ensures
            match r {
                Ok(p) => p == (Point { x: value.0, y: value.1 }) && p.bounded(),
                Err(CastError::OutOfRange) => !(Point { x: value.0, y: value.1 }).bounded(),
            },
    {
        let p = Point { x: value.0, y: value.1 };
        if p.x >= -COORD_LIMIT && p.x <= COORD_LIMIT && p.y >= -COORD_LIMIT && p.y
            <= COORD_LIMIT {
            Ok(p)
        } else {
            Err(CastError::OutOfRange)
        }
    }
}

} // verus!
