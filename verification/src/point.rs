//! Board coordinates, carried as `cgmath` points.

use crate::chain::Cell;
use cgmath::Point2;
use vstd::prelude::*;

verus! {

/// `cgmath::Point2`, declared so that points can stand in signatures and fields.
/// Nothing is claimed of it: its two public coordinates `x` and `y` are read
/// from cgmath's own definition.
#[verifier::external_type_specification]
#[verifier::reject_recursive_types(S)]
pub struct ExPoint2<S>(cgmath::Point2<S>);

/// `cgmath::point2` builds the point whose coordinates are the two arguments, in order.
pub assume_specification<S>[ cgmath::point2::<S> ](x: S, y: S) -> (p: Point2<S>)
    ensures
        p.x == x,
        p.y == y,
;

/// The cell that a point names: `x` is the column, `y` the row.
pub open spec fn coord(p: Point2<usize>) -> Cell {
    (p.x as int, p.y as int)
}

/// The cell that an optional point names, if any.
pub open spec fn coord_opt(p: Option<Point2<usize>>) -> Option<Cell> {
    match p {
        Some(p) => Some(coord(p)),
        None => None,
    }
}

/// The cells that a list of points names, in order.
pub open spec fn cells(points: Seq<Point2<usize>>) -> Seq<Cell> {
    points.map_values(|p: Point2<usize>| coord(p))
}

} // verus!
