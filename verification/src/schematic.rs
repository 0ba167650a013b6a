//! An engine schematic: the inner cells around a cell.

use vstd::prelude::*;

verus! {

/// Cell number `k`, in reading order, of the three by three block around
/// column `x` of row `y`.
pub open spec fn block_cell(x: int, y: int, k: int) -> (int, int) {
    (x - 1 + k % 3, y - 1 + k / 3)
}

/// The cell lies strictly inside a schematic of `w` columns and `h` rows,
/// off its border, and is not the cell at column `x` of row `y`.
pub open spec fn is_inner_neighbour(x: int, y: int, w: int, h: int, c: (int, int)) -> bool {
    c.0 > 0 && c.1 > 0 && c.0 < w - 1 && c.1 < h - 1 && (c.0 != x || c.1 != y)
}

/// The first `n` cells of the block around a cell that are inner
/// neighbours of it, in reading order.
pub open spec fn inner_neighbours(x: int, y: int, w: int, h: int, n: int) -> Seq<(usize, usize)>
    decreases n,
{
    if n <= 0 {
        Seq::empty()
    } else {
        let c = block_cell(x, y, n - 1);
        let before = inner_neighbours(x, y, w, h, n - 1);
        if is_inner_neighbour(x, y, w, h, c) {
            before.push((c.0 as usize, c.1 as usize))
        } else {
            before
        }
    }
}

/// The cells next to column `x` of row `y`, diagonals included, that lie
/// strictly inside a schematic of `w` columns and `h` rows, in reading
/// order.
pub fn get_adjacent_positions(x: usize, y: usize, w: usize, h: usize) -> (v: Vec<(usize, usize)>)
    requires
        1 <= w <= isize::MAX,
        1 <= h <= isize::MAX,
        x < isize::MAX - 1,
        y < isize::MAX - 1,
    ensures
        v@ == inner_neighbours(x as int, y as int, w as int, h as int, 9),
{
    let mut v: Vec<(usize, usize)> = Vec::new();
    let min_x: isize = x as isize - 1;
    let min_y: isize = y as isize - 1;
    let mut dy: isize = 0;
    while dy < 3
        invariant
            0 <= dy <= 3,
            min_x == x - 1,
            min_y == y - 1,
            1 <= w <= isize::MAX,
            1 <= h <= isize::MAX,
            x < isize::MAX - 1,
            y < isize::MAX - 1,
            v@ == inner_neighbours(x as int, y as int, w as int, h as int, 3 * dy),
        decreases 3 - dy,
    {
        let mut dx: isize = 0;
        while dx < 3
            invariant
                0 <= dx <= 3,
                0 <= dy < 3,
                min_x == x - 1,
                min_y == y - 1,
                1 <= w <= isize::MAX,
                1 <= h <= isize::MAX,
                x < isize::MAX - 1,
                y < isize::MAX - 1,
                v@ == inner_neighbours(x as int, y as int, w as int, h as int, 3 * dy + dx),
            decreases 3 - dx,
        {
            let vx: isize = min_x + dx;
            let vy: isize = min_y + dy;
            proof {
                let k = 3 * dy + dx;
                assert(k % 3 == dx && k / 3 == dy);
                assert(block_cell(x as int, y as int, k as int) == (vx as int, vy as int));
            }
            if vx > 0 && vy > 0 && vx < (w - 1) as isize && vy < (h - 1) as isize && (vx != x as isize || vy
                != y as isize) {
                v.push((vx as usize, vy as usize));
            }
            dx = dx + 1;
        }
        dy = dy + 1;
    }
    v
}

} // verus!
