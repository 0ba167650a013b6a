//! Which heading to draw on which cell when a route is shown on its grid.

use vstd::prelude::*;
use crate::heading::Direction;
use crate::states::Step;
use crate::table::{lemma_cell_in_range, lemma_cell_injective};

verus! {

/// The heading of the first step at or after position `k`, the last step
/// left aside, that stands on column `x` of row `y`.
pub open spec fn first_mark(path: Seq<Step>, k: int, x: int, y: int) -> Option<Direction>
    decreases path.len() - k,
{
    if k < 0 || k >= path.len() - 1 {
        None
    } else if path[k].pos.0 == x && path[k].pos.1 == y {
        Some(path[k].direction)
    } else {
        first_mark(path, k + 1, x, y)
    }
}

/// The heading to draw on column `x` of row `y`: on the cell where the
/// route ends the heading of its last step, on any other cell of the route
/// the heading of the first step that stands there, and none elsewhere.
pub open spec fn mark(path: Seq<Step>, x: int, y: int) -> Option<Direction> {
    if path.len() > 0 && path.last().pos.0 == x && path.last().pos.1 == y {
        Some(path.last().direction)
    } else {
        first_mark(path, 0, x, y)
    }
}

/// The number of the cell at column `x` of row `y` where a row has `cols`
/// cells.
pub open spec fn cell(cols: int, x: int, y: int) -> int {
    y * cols + x
}

/// The headings to draw, one slot for each cell of a grid.
pub struct Overlay {
    cols: usize,
    rows: usize,
    marks: Vec<Option<Direction>>,
}

impl Overlay {
    /// The number of rows and of columns.
    pub closed spec fn shape(&self) -> (int, int) {
        (self.rows as int, self.cols as int)
    }

    /// The table has a slot for each cell.
    pub closed spec fn well_formed(&self) -> bool {
        self.marks@.len() == self.rows * self.cols
    }

    /// The heading in the slot of column `x` of row `y`.
    pub closed spec fn spec_at(&self, x: int, y: int) -> Option<Direction> {
        self.marks@[cell(self.cols as int, x, y)]
    }

    /// The headings to draw for a route on a grid of `rows` rows and `cols`
    /// columns.
    pub fn of(path: &Vec<Step>, rows: usize, cols: usize) -> (o: Overlay)
        requires
            rows * cols <= usize::MAX,
            forall|i: int| 0 <= i < path@.len() ==> (#[trigger] path@[i]).pos.0 < cols && path@[i].pos.1 < rows,
        ensures
            o.well_formed(),
            o.shape() == (rows as int, cols as int),
            forall|x: int, y: int| 0 <= x < cols && 0 <= y < rows ==> #[trigger] o.spec_at(x, y) == mark(path@, x, y),
    {
        let total: usize = rows * cols;
        let mut marks: Vec<Option<Direction>> = Vec::new();
        let mut n: usize = 0;
        while n < total
            invariant
                n <= total,
                marks@.len() == n,
                forall|k: int| 0 <= k < n ==> marks@[k] == None::<Direction>,
            decreases total - n,
        {
            marks.push(None);
            n = n + 1;
        }
        let len: usize = path.len();
        proof {
            assert forall|x: int, y: int| 0 <= x < cols && 0 <= y < rows implies 0 <= #[trigger] cell(
                cols as int,
                x,
                y,
            ) < total by {
                lemma_cell_in_range(cols as int, rows as int, x, y);
            }
        }
        if len == 0 {
            return Overlay { cols, rows, marks };
        }
        let mut i: usize = len - 1;
        while i > 0
            invariant
                len == path@.len(),
                i < len,
                total == rows * cols,
                marks@.len() == total,
                forall|j: int| 0 <= j < path@.len() ==> (#[trigger] path@[j]).pos.0 < cols && path@[j].pos.1 < rows,
                forall|x: int, y: int|
                    0 <= x < cols && 0 <= y < rows ==> 0 <= #[trigger] cell(cols as int, x, y) < total,
                forall|x: int, y: int|
                    0 <= x < cols && 0 <= y < rows ==> marks@[#[trigger] cell(cols as int, x, y)] == first_mark(
                        path@,
                        i as int,
                        x,
                        y,
                    ),
            decreases i,
        {
            i = i - 1;
            let step = path[i];
            proof {
                lemma_cell_in_range(cols as int, rows as int, step.pos.0 as int, step.pos.1 as int);
            }
            let k: usize = step.pos.1 * cols + step.pos.0;
            marks.set(k, Some(step.direction));
            proof {
                assert forall|x: int, y: int| 0 <= x < cols && 0 <= y < rows implies marks@[#[trigger] cell(
                    cols as int,
                    x,
                    y,
                )] == first_mark(path@, i as int, x, y) by {
                    if cell(cols as int, x, y) == k {
                        lemma_cell_injective(cols as int, x, y, step.pos.0 as int, step.pos.1 as int);
                    }
                }
            }
        }
        let last = path[len - 1];
        proof {
            lemma_cell_in_range(cols as int, rows as int, last.pos.0 as int, last.pos.1 as int);
        }
        let k: usize = last.pos.1 * cols + last.pos.0;
        marks.set(k, Some(last.direction));
        let o = Overlay { cols, rows, marks };
        proof {
            assert forall|x: int, y: int| 0 <= x < cols && 0 <= y < rows implies #[trigger] o.spec_at(x, y)
                == mark(path@, x, y) by {
                if cell(cols as int, x, y) == k {
                    lemma_cell_injective(cols as int, x, y, last.pos.0 as int, last.pos.1 as int);
                }
            }
        }
        o
    }

    /// The heading to draw on column `x` of row `y`, if any.
    pub fn at(&self, x: usize, y: usize) -> (d: Option<Direction>)
        requires
            self.well_formed(),
            x < self.shape().1,
            y < self.shape().0,
        ensures
            d == self.spec_at(x as int, y as int),
    {
        let n: usize = self.marks.len();
        proof {
            lemma_cell_in_range(self.cols as int, self.rows as int, x as int, y as int);
        }
        self.marks[y * self.cols + x]
    }
}

} // verus!
