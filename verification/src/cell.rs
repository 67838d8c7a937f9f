//! The cell of the grid around a point, and its corners. A cell has two
//! corners along each spatial axis, or one along an axis on which it has no
//! extent; the corners are visited with the first axis varying fastest.
use crate::point::Point3dd;
use crate::point::Point3di;
use vstd::prelude::*;

verus! {

/// A cell of the grid: its lowest and its highest corner.
#[derive(Clone, Copy, Debug, PartialEq, Eq)]
pub struct Cell {
    pub lower: Point3di,
    pub upper: Point3di,
}

/// A corner of a cell: where it is, how many steps, none or one, it lies
/// from the lowest corner along each axis, and the vector stored there, in
/// double precision.
#[derive(Clone, Copy, Debug, PartialEq, Eq)]
pub struct Corner {
    pub position: Point3di,
    pub steps: [usize; 3],
    pub delta: Point3dd,
}

/// The grid points from which the value of a field at a point is blended:
/// the cell around the point, and its corners with their stored vectors.
#[derive(Debug, PartialEq, Eq)]
pub struct Stencil {
    pub cell: Cell,
    pub corners: Vec<Corner>,
}

/// The step, zero or one, that candidate `n` of the eight takes from the
/// lowest corner along `axis`. The first axis varies fastest.
pub open spec fn step(n: int, axis: int) -> int {
    if axis == 0 {
        n % 2
    } else if axis == 1 {
        (n / 2) % 2
    } else {
        n / 4
    }
}

impl Cell {
    /// The number of grid points along axis `k` that the cell touches: two,
    /// or one where the cell has no extent.
    pub open spec fn span(self, k: int) -> int {
        self.upper@[k] - self.lower@[k] + 1
    }

    /// Whether the cell is made as cells are: along each axis its lower
    /// index is not negative, and its upper index is the same or the next.
    pub open spec fn wf(self) -> bool {
        forall|k: int|
            0 <= k < 3 ==> 0 <= (#[trigger] self.lower@[k]) <= self.upper@[k] <= self.lower@[k] + 1
    }

    /// Whether candidate `n` is a corner of the cell: it steps only along
    /// axes on which the cell has extent.
    pub open spec fn has_corner(self, n: int) -> bool {
        forall|k: int| 0 <= k < 3 ==> self.lower@[k] + #[trigger] step(n, k) <= self.upper@[k]
    }

    /// The grid position of candidate `n`.
    pub open spec fn corner_position(self, n: int) -> Seq<i32> {
        seq![
            (self.lower@[0] + step(n, 0)) as i32,
            (self.lower@[1] + step(n, 1)) as i32,
            (self.lower@[2] + step(n, 2)) as i32,
        ]
    }
}

/// Candidate `n` is a corner exactly if each of its steps stays in the cell.
pub proof fn lemma_has_corner(cell: Cell, n: int)
    ensures
        cell.has_corner(n) == (cell.lower@[0] + n % 2 <= cell.upper@[0] && cell.lower@[1] + (n / 2)
            % 2 <= cell.upper@[1] && cell.lower@[2] + n / 4 <= cell.upper@[2]),
{
    assert(step(n, 0) == n % 2);
    assert(step(n, 1) == (n / 2) % 2);
    assert(step(n, 2) == n / 4);
}

} // verus!
