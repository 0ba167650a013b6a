//! The dense numbering of search states: one slot for each cell, heading and
//! run length.

use vstd::prelude::*;
use crate::heading::Direction;
use crate::route::{Node, width, inside};

verus! {

/// A state that has a slot: its cell lies in the grid, and its run is one
/// that a table has room for.
pub open spec fn valid_node(g: Seq<Seq<usize>>, n: Node) -> bool {
    &&& inside(g, n.x, n.y)
    &&& 0 <= n.run <= 10
}

/// The number of slots of a grid's tables: for each cell four headings
/// with eleven run lengths each.
pub open spec fn state_count(g: Seq<Seq<usize>>) -> int {
    g.len() * width(g) * 44
}

/// The slot of a state.
pub open spec fn slot(g: Seq<Seq<usize>>, n: Node) -> int {
    ((n.y * width(g) + n.x) * 4 + n.dir.ordinal()) * 11 + n.run
}

/// The cells of row `y` come before those of the rows below it, and all of
/// them before the number of cells.
pub proof fn lemma_cell_in_range(w: int, h: int, x: int, y: int)
    requires
        0 <= x < w,
        0 <= y < h,
    ensures
        0 <= y * w,
        0 <= y * w + x < h * w,
{
    assert(0 <= y * w) by (nonlinear_arith)
        requires
            0 <= y,
            0 <= w,
    ;
    assert(y * w + w <= h * w) by (nonlinear_arith)
        requires
            y + 1 <= h,
            0 <= w,
    ;
}

/// Two cells with the same number are the same cell.
pub proof fn lemma_cell_injective(w: int, x1: int, y1: int, x2: int, y2: int)
    requires
        0 <= x1 < w,
        0 <= x2 < w,
        0 <= y1,
        0 <= y2,
        y1 * w + x1 == y2 * w + x2,
    ensures
        x1 == x2,
        y1 == y2,
{
    if y1 < y2 {
        assert(y1 * w + w <= y2 * w) by (nonlinear_arith)
            requires
                y1 + 1 <= y2,
                0 <= w,
        ;
    } else if y2 < y1 {
        assert(y2 * w + w <= y1 * w) by (nonlinear_arith)
            requires
                y2 + 1 <= y1,
                0 <= w,
        ;
    }
}

/// The slot of a valid state lies in the table.
pub proof fn lemma_slot_in_range(g: Seq<Seq<usize>>, n: Node)
    requires
        valid_node(g, n),
    ensures
        0 <= slot(g, n) < state_count(g),
{
    let w = width(g);
    let h = g.len() as int;
    lemma_cell_in_range(w, h, n.x, n.y);
    let cell = n.y * w + n.x;
    assert(slot(g, n) == cell * 44 + n.dir.ordinal() * 11 + n.run);
    assert((h * w) * 44 >= (cell + 1) * 44);
}

/// Two valid states with the same slot are the same state.
pub proof fn lemma_slot_injective(g: Seq<Seq<usize>>, a: Node, b: Node)
    requires
        valid_node(g, a),
        valid_node(g, b),
        slot(g, a) == slot(g, b),
    ensures
        a == b,
{
    let w = width(g);
    let ca = a.y * w + a.x;
    let cb = b.y * w + b.x;
    assert(slot(g, a) == ca * 44 + a.dir.ordinal() * 11 + a.run);
    assert(slot(g, b) == cb * 44 + b.dir.ordinal() * 11 + b.run);
    assert(ca == cb);
    assert(a.dir.ordinal() == b.dir.ordinal());
    lemma_cell_injective(w, a.x, a.y, b.x, b.y);
}

/// The slot of the state at column `x` of row `y` with heading `d` and run
/// `run`, in a grid of `w` columns and `h` rows.
pub fn slot_of(w: usize, h: usize, x: usize, y: usize, d: Direction, run: u8) -> (k: usize)
    requires
        x < w,
        y < h,
        run <= 10,
        h * w * 44 <= usize::MAX,
    ensures
        k == ((y * w + x) * 4 + d.ordinal()) * 11 + run,
        k < h * w * 44,
{
    proof {
        lemma_cell_in_range(w as int, h as int, x as int, y as int);
    }
    let cell: usize = y * w + x;
    (cell * 4 + d.index()) * 11 + run as usize
}

} // verus!
