//! The conversion traits between compiler-side plain values and the IR.

use typst_ts_incr::cast::{CastError, FromTypst, IntoTypst, TryFromTypst, TryIntoTypst};
use typst_ts_incr::geom::{Point, Rect, COORD_LIMIT};
use typst_ts_incr::ir::{ChildRef, FontVariant};

#[test]
fn plain_values_convert_into_ir() {
    let p = Point::from_typst((3, -4));
    assert_eq!(p, Point { x: 3, y: -4 });
    let r = Rect::from_typst((0, 1, 2, 3));
    assert_eq!(r, Rect { x_min: 0, y_min: 1, x_max: 2, y_max: 3 });
    let c = ChildRef::from_typst((9, 1, 2));
    assert_eq!(c, ChildRef { id: 9, dx: 1, dy: 2 });
    let v = FontVariant::from_typst((0, 400, 1000));
    assert_eq!(v, FontVariant { style: 0, weight: 400, stretch: 1000 });
}

#[test]
fn ir_values_convert_back() {
    let r = Rect { x_min: 0, y_min: 1, x_max: 2, y_max: 3 };
    let tuple: (i64, i64, i64, i64) = r.into_typst();
    assert_eq!(tuple, (0, 1, 2, 3));
    // The blanket direction mirrors the explicit one.
    let back: Rect = tuple.into_typst();
    assert_eq!(back, r);
}

#[test]
fn fallible_conversions_check_the_coordinate_limit() {
    let ok: Result<Rect, CastError> = (0i64, 0i64, 5i64, 5i64).try_into_typst();
    assert_eq!(ok.unwrap(), Rect { x_min: 0, y_min: 0, x_max: 5, y_max: 5 });
    let too_wide: Result<Rect, CastError> = (0i64, 0i64, COORD_LIMIT + 1, 5i64).try_into_typst();
    assert_eq!(too_wide.unwrap_err(), CastError::OutOfRange);
    let upside_down = Rect::try_from_typst((5, 5, 0, 0));
    assert_eq!(upside_down.unwrap_err(), CastError::OutOfRange);
    let p = Point::try_from_typst((COORD_LIMIT, -COORD_LIMIT));
    assert_eq!(p.unwrap(), Point { x: COORD_LIMIT, y: -COORD_LIMIT });
    let far = Point::try_from_typst((COORD_LIMIT + 1, 0));
    assert_eq!(far.unwrap_err(), CastError::OutOfRange);
}

#[test]
fn intersection_is_strict_overlap() {
    let a = Rect { x_min: 0, y_min: 0, x_max: 10, y_max: 10 };
    let b = Rect { x_min: 5, y_min: 5, x_max: 15, y_max: 15 };
    let touching = Rect { x_min: 10, y_min: 0, x_max: 20, y_max: 10 };
    let away = Rect { x_min: 20, y_min: 20, x_max: 30, y_max: 30 };
    assert!(a.intersects(&b));
    assert!(b.intersects(&a));
    assert!(!a.intersects(&touching));
    assert!(!a.intersects(&away));
}
