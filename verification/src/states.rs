//! The states of a traveller on the grid as values, and the moves that the
//! rules allow from a state.

use vstd::prelude::*;
use crate::heading::{Direction, can_move};
use crate::route::{Node, inside, entry_cost, step_to};
use crate::grid::Grid;

verus! {

/// A state of a traveller: the cell, the heading in which it was entered,
/// and the cells travelled in that heading so far.
#[derive(Copy, Clone, Debug, PartialEq, Eq)]
pub struct Step {
    pub pos: (usize, usize),
    pub direction: Direction,
    pub straight_line: u8,
}

impl View for Step {
    type V = Node;

    open spec fn view(&self) -> Node {
        Node { x: self.pos.0 as int, y: self.pos.1 as int, dir: self.direction, run: self.straight_line as int }
    }
}

/// The states of a sequence of steps.
pub open spec fn steps_view(path: Seq<Step>) -> Seq<Node> {
    path.map_values(|s: Step| s@)
}

/// The neighbour of a cell in a heading, if the grid has one there.
pub fn neighbour(w: usize, h: usize, pos: (usize, usize), d: Direction) -> (r: Option<(usize, usize)>)
    requires
        pos.0 < w,
        pos.1 < h,
    ensures
        match r {
            Some(q) => q.0 == pos.0 + d.dx() && q.1 == pos.1 + d.dy() && q.0 < w && q.1 < h,
            None => !(0 <= pos.0 + d.dx() < w && 0 <= pos.1 + d.dy() < h),
        },
{
    match d {
        Direction::Up => if pos.1 > 0 {
            Some((pos.0, pos.1 - 1))
        } else {
            None
        },
        Direction::Down => if pos.1 < h - 1 {
            Some((pos.0, pos.1 + 1))
        } else {
            None
        },
        Direction::Left => if pos.0 > 0 {
            Some((pos.0 - 1, pos.1))
        } else {
            None
        },
        Direction::Right => if pos.0 < w - 1 {
            Some((pos.0 + 1, pos.1))
        } else {
            None
        },
    }
}

/// A step with the cost of the cell that it enters.
pub type Move = (Step, usize);

/// The state and the cost of a move.
pub open spec fn move_view(m: Move) -> (Node, int) {
    (m.0@, m.1 as int)
}

/// The move into heading `d` from state `a`, where such a step is legal.
pub open spec fn move_into(g: Seq<Seq<usize>>, ultra: bool, a: Node, d: Direction) -> Seq<(Node, int)> {
    match step_to(g, ultra, a, d) {
        Some(n) => seq![(n, entry_cost(g, n.x, n.y))],
        None => Seq::empty(),
    }
}

/// The legal moves from state `a`: up, down, left, right, as far as legal.
pub open spec fn moves_from(g: Seq<Seq<usize>>, ultra: bool, a: Node) -> Seq<(Node, int)> {
    move_into(g, ultra, a, Direction::Up) + move_into(g, ultra, a, Direction::Down) + move_into(
        g,
        ultra,
        a,
        Direction::Left,
    ) + move_into(g, ultra, a, Direction::Right)
}

/// The state that a step into heading `d` leads to from the state `from`,
/// with the cost of the cell that the step enters; `None` where no step
/// into that heading is legal: where it would reverse, leave the grid, turn
/// too early or run straight for too long.
pub fn successor(grid: &Grid, from: Step, d: Direction, ultra: bool) -> (r: Option<Move>)
    requires
        grid.well_formed(),
        inside(grid@, from.pos.0 as int, from.pos.1 as int),
    ensures
        match step_to(grid@, ultra, from@, d) {
            Some(n) => r is Some && r->Some_0.0@ == n && r->Some_0.1 == entry_cost(grid@, n.x, n.y),
            None => r is None,
        },
{
    if !can_move(from.direction, d, from.straight_line, ultra) {
        return None;
    }
    let (h, w) = grid.dimensions();
    let q = match neighbour(w, h, from.pos, d) {
        Some(q) => q,
        None => {
            return None;
        },
    };
    let sl: u8 = if d == from.direction {
        from.straight_line + 1
    } else {
        1
    };
    Some((Step { pos: q, direction: d, straight_line: sl }, grid.cost(q.1, q.0)))
}

/// The legal moves from the state `from`, each with the cost of the cell
/// that it enters: up, down, left, right, as far as legal.
pub fn successors(grid: &Grid, from: Step, ultra: bool) -> (v: Vec<Move>)
    requires
        grid.well_formed(),
        inside(grid@, from.pos.0 as int, from.pos.1 as int),
    ensures
        v@.map_values(|m: Move| move_view(m)) == moves_from(grid@, ultra, from@),
{
    let mut v: Vec<Move> = Vec::new();
    let ghost g = grid@;
    let ghost a = from@;
    let ghost view = |m: Move| move_view(m);
    match successor(grid, from, Direction::Up, ultra) {
        Some(m) => {
            v.push(m);
        },
        None => {},
    }
    assert(v@.map_values(view) =~= move_into(g, ultra, a, Direction::Up));
    match successor(grid, from, Direction::Down, ultra) {
        Some(m) => {
            v.push(m);
        },
        None => {},
    }
    assert(v@.map_values(view) =~= move_into(g, ultra, a, Direction::Up) + move_into(
        g,
        ultra,
        a,
        Direction::Down,
    ));
    match successor(grid, from, Direction::Left, ultra) {
        Some(m) => {
            v.push(m);
        },
        None => {},
    }
    assert(v@.map_values(view) =~= move_into(g, ultra, a, Direction::Up) + move_into(g, ultra, a, Direction::Down)
        + move_into(g, ultra, a, Direction::Left));
    match successor(grid, from, Direction::Right, ultra) {
        Some(m) => {
            v.push(m);
        },
        None => {},
    }
    assert(v@.map_values(view) =~= moves_from(g, ultra, a));
    v
}

} // verus!
