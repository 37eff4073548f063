//! A set of cells of a square grid, kept as one flag per cell.

use crate::chain::Cell;
use vstd::prelude::*;

verus! {

/// A set of cells of a grid of side `side()`.
pub struct CellMarks {
    side: usize,
    flags: Vec<Vec<bool>>,
}

impl CellMarks {
    /// There is one flag for each cell of the grid.
    pub closed spec fn wf(&self) -> bool {
        &&& self.flags@.len() == self.side
        &&& forall|x: int| 0 <= x < self.side ==> (#[trigger] self.flags@[x])@.len() == self.side
    }

    /// The side of the grid whose cells can be marked.
    pub closed spec fn side(&self) -> int {
        self.side as int
    }

    /// The marked cells.
    pub closed spec fn view(&self) -> Set<Cell> {
        Set::new(
            |c: Cell| 0 <= c.0 < self.side && 0 <= c.1 < self.side && self.flags@[c.0]@[c.1],
        )
    }

    /// No cell of a grid of side `side` marked.
    pub fn new(side: usize) -> (marks: CellMarks)
        ensures
            marks.wf(),
            marks.side() == side,
            marks@ == Set::<Cell>::empty(),
    {
        let mut flags: Vec<Vec<bool>> = Vec::new();
        let mut x: usize = 0;
        while x < side
            invariant
                x <= side,
                flags@.len() == x,
                forall|i: int| 0 <= i < x ==> (#[trigger] flags@[i])@.len() == side,
                forall|i: int, j: int| 0 <= i < x && 0 <= j < side ==> !(#[trigger] flags@[i]@[j]),
            decreases side - x,
        {
            let mut column: Vec<bool> = Vec::new();
            let mut y: usize = 0;
            while y < side
                invariant
                    y <= side,
                    column@.len() == y,
                    forall|j: int| 0 <= j < y ==> !(#[trigger] column@[j]),
                decreases side - y,
            {
                column.push(false);
                y += 1;
            }
            flags.push(column);
            x += 1;
        }
        let marks = CellMarks { side, flags };
        assert(marks@ =~= Set::<Cell>::empty());
        marks
    }

    /// Whether the cell (x, y) is marked.
    pub fn contains(&self, x: usize, y: usize) -> (marked: bool)
        requires
            self.wf(),
        ensures
            marked == self@.contains((x as int, y as int)),
    {
        x < self.side && y < self.side && self.flags[x][y]
    }

    /// Marks the cell (x, y).
    pub fn insert(&mut self, x: usize, y: usize)
        requires
            old(self).wf(),
            x < old(self).side(),
            y < old(self).side(),
        ensures
            final(self).wf(),
            final(self).side() == old(self).side(),
            final(self)@ == old(self)@.insert((x as int, y as int)),
    {
        self.flags[x][y] = true;
        assert(self@ =~= old(self)@.insert((x as int, y as int)));
    }
}

} // verus!
