//! The star points (hoshi) that mark a board.

use crate::chain::Cell;
use crate::point::cells;
use cgmath::{point2, Point2};
use vstd::prelude::*;

verus! {

/// The star points of a board of side `size`, row by row: nine on a board of
/// nineteen, five on boards of thirteen and of nine, none on any other.
pub open spec fn hoshi_cells(size: int) -> Seq<Cell> {
    if size == 19 {
        seq![(3, 3), (9, 3), (15, 3), (3, 9), (9, 9), (15, 9), (3, 15), (9, 15), (15, 15)]
    } else if size == 13 {
        seq![(3, 3), (10, 3), (6, 6), (3, 10), (10, 10)]
    } else if size == 9 {
        seq![(2, 2), (6, 2), (4, 4), (2, 6), (6, 6)]
    } else {
        Seq::empty()
    }
}

/// The star points of a board of side `size`.
pub fn hoshi_points(size: usize) -> (points: Vec<Point2<usize>>)
    ensures
        cells(points@) == hoshi_cells(size as int),
{
    let points = if size == 19 {
        vec![
            point2(3, 3),
            point2(9, 3),
            point2(15, 3),
            point2(3, 9),
            point2(9, 9),
            point2(15, 9),
            point2(3, 15),
            point2(9, 15),
            point2(15, 15),
        ]
    } else if size == 13 {
        vec![point2(3, 3), point2(10, 3), point2(6, 6), point2(3, 10), point2(10, 10)]
    } else if size == 9 {
        vec![point2(2, 2), point2(6, 2), point2(4, 4), point2(2, 6), point2(6, 6)]
    } else {
        Vec::new()
    };
    assert(cells(points@) =~= hoshi_cells(size as int));
    points
}

} // verus!
