use vstd::prelude::*;

use crate::pieces::Point;

verus! {

/// The board's cells in row-major order.
pub struct Squares {
    pub points: Vec<Point>,
}

/// Slot `i` of the table holds file `i % 8` of rank `i / 8`.
pub open spec fn cell_of(i: int) -> Point {
    Point { x: (i % 8) as u32, y: (i / 8) as u32 }
}

impl Squares {
    /// Appends the 64 cells of the board, in row-major order.
    pub fn create(self) -> (r: Result<Self, String>)
        ensures
            r matches Ok(s) && s.points@ == self.points@ + Seq::new(64, |i: int| cell_of(i)),
    {
        let mut squares = self;
        let ghost start = squares.points@;
        let mut index: u32 = 0;
        while index < 64
            invariant
                index <= 64,
                squares.points@ == start + Seq::new(index as nat, |i: int| cell_of(i)),
            decreases 64 - index,
        {
            squares.points.push(Point { x: index % 8, y: index / 8 });
            assert(squares.points@ =~= start + Seq::new((index + 1) as nat, |i: int| cell_of(i)));
            index += 1;
        }
        Ok(squares)
    }
}

} // verus!
