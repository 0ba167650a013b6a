//! What a route is: the states of a traveller on the grid, the legal steps
//! between them, walks, their cost, and what it means for a cost to be least.

use vstd::prelude::*;
use crate::heading::{Direction, move_allowed, min_run, max_run};

verus! {

/// A traveller's state: the cell, the heading, and the number of cells
/// travelled in that heading since the last turn.
pub struct Node {
    pub x: int,
    pub y: int,
    pub dir: Direction,
    pub run: int,
}

/// The number of columns of a grid given by its rows.
pub open spec fn width(g: Seq<Seq<usize>>) -> int {
    if g.len() > 0 {
        g[0].len() as int
    } else {
        0
    }
}

/// Every row is as long as the first.
pub open spec fn rectangular(g: Seq<Seq<usize>>) -> bool {
    forall|i: int| 0 <= i < g.len() ==> (#[trigger] g[i]).len() == g[0].len()
}

/// Column `x` of row `y` is a cell of the grid.
pub open spec fn inside(g: Seq<Seq<usize>>, x: int, y: int) -> bool {
    0 <= y < g.len() && 0 <= x < width(g)
}

/// The cost of entering the cell at column `x` of row `y`.
pub open spec fn entry_cost(g: Seq<Seq<usize>>, x: int, y: int) -> int {
    g[y][x] as int
}

/// One step from state `a` to state `b`: the change of heading is allowed,
/// `b` is the neighbour of `a` in `b`'s heading and lies in the grid, and the
/// run grows by one on a straight step and starts again at one on a turn.
pub open spec fn legal_step(g: Seq<Seq<usize>>, ultra: bool, a: Node, b: Node) -> bool {
    &&& move_allowed(a.dir, b.dir, a.run, ultra)
    &&& b.x == a.x + b.dir.dx()
    &&& b.y == a.y + b.dir.dy()
    &&& inside(g, b.x, b.y)
    &&& b.run == if b.dir == a.dir {
        a.run + 1
    } else {
        1
    }
}

/// The state that a step into heading `d` leads to from state `a`, where
/// such a step is legal.
pub open spec fn step_to(g: Seq<Seq<usize>>, ultra: bool, a: Node, d: Direction) -> Option<Node> {
    if move_allowed(a.dir, d, a.run, ultra) && inside(g, a.x + d.dx(), a.y + d.dy()) {
        Some(
            Node {
                x: a.x + d.dx(),
                y: a.y + d.dy(),
                dir: d,
                run: if d == a.dir {
                    a.run + 1
                } else {
                    1
                },
            },
        )
    } else {
        None
    }
}

/// A legal step into a heading leads to one state, the one that `step_to`
/// names, and where it names none no step into the heading is legal.
pub proof fn lemma_step_to(g: Seq<Seq<usize>>, ultra: bool, a: Node, b: Node)
    ensures
        legal_step(g, ultra, a, b) <==> step_to(g, ultra, a, b.dir) == Some(b),
{
}

/// A state at the start cell with no cell travelled yet, in any heading.
pub open spec fn is_seed(g: Seq<Seq<usize>>, start: (int, int), n: Node) -> bool {
    &&& n.x == start.0
    &&& n.y == start.1
    &&& n.run == 0
    &&& inside(g, n.x, n.y)
}

/// The step from state `i` of a sequence to the next one is legal.
pub open spec fn step_at(g: Seq<Seq<usize>>, ultra: bool, p: Seq<Node>, i: int) -> bool {
    legal_step(g, ultra, p[i], p[i + 1])
}

/// A walk: a seed followed by legal steps.
pub open spec fn is_walk(g: Seq<Seq<usize>>, ultra: bool, start: (int, int), p: Seq<Node>) -> bool {
    &&& p.len() > 0
    &&& is_seed(g, start, p[0])
    &&& forall|i: int| 0 <= i < p.len() - 1 ==> #[trigger] step_at(g, ultra, p, i)
}

/// The sum of the entry costs of the cells that the walk enters. The cell it
/// starts on is not entered.
pub open spec fn walk_cost(g: Seq<Seq<usize>>, p: Seq<Node>) -> int
    decreases p.len(),
{
    if p.len() <= 1 {
        0
    } else {
        walk_cost(g, p.drop_last()) + entry_cost(g, p.last().x, p.last().y)
    }
}

/// The state stands on the goal with the shortest run behind it.
pub open spec fn is_terminal(ultra: bool, goal: (int, int), n: Node) -> bool {
    &&& n.x == goal.0
    &&& n.y == goal.1
    &&& n.run >= min_run(ultra)
}

/// A route: a walk from the start that ends in a terminal state on the goal.
pub open spec fn is_route(
    g: Seq<Seq<usize>>,
    ultra: bool,
    start: (int, int),
    goal: (int, int),
    p: Seq<Node>,
) -> bool {
    &&& is_walk(g, ultra, start, p)
    &&& is_terminal(ultra, goal, p.last())
}

/// Some route leads from the start to the goal.
pub open spec fn reachable(g: Seq<Seq<usize>>, ultra: bool, start: (int, int), goal: (int, int)) -> bool {
    exists|p: Seq<Node>| is_route(g, ultra, start, goal, p)
}

/// `c` is the cost of some route, and no route costs less.
pub open spec fn is_least_cost(
    g: Seq<Seq<usize>>,
    ultra: bool,
    start: (int, int),
    goal: (int, int),
    c: int,
) -> bool {
    &&& exists|p: Seq<Node>| is_route(g, ultra, start, goal, p) && walk_cost(g, p) == c
    &&& forall|q: Seq<Node>| is_route(g, ultra, start, goal, q) ==> c <= walk_cost(g, q)
}

/// Two grids of the same shape.
pub open spec fn same_shape(g1: Seq<Seq<usize>>, g2: Seq<Seq<usize>>) -> bool {
    &&& g1.len() == g2.len()
    &&& forall|y: int| 0 <= y < g1.len() ==> (#[trigger] g1[y]).len() == g2[y].len()
}

/// No cell of `g2` is cheaper to enter than the same cell of `g1`.
pub open spec fn no_cheaper(g1: Seq<Seq<usize>>, g2: Seq<Seq<usize>>) -> bool {
    &&& same_shape(g1, g2)
    &&& forall|x: int, y: int| inside(g1, x, y) ==> entry_cost(g1, x, y) <= #[trigger] entry_cost(g2, x, y)
}

/// Whether a step is legal depends on the grid's shape only, not on its costs.
pub proof fn lemma_walk_ignores_costs(
    g1: Seq<Seq<usize>>,
    g2: Seq<Seq<usize>>,
    ultra: bool,
    start: (int, int),
    p: Seq<Node>,
)
    requires
        same_shape(g1, g2),
        is_walk(g1, ultra, start, p),
    ensures
        is_walk(g2, ultra, start, p),
{
    assert(g1.len() > 0);
    assert(g1[0].len() == g2[0].len());
    assert forall|i: int| 0 <= i < p.len() - 1 implies #[trigger] step_at(g2, ultra, p, i) by {
        assert(step_at(g1, ultra, p, i));
    }
}

/// Every state of a walk but the first lies in the grid, as the first does.
pub proof fn lemma_walk_inside(g: Seq<Seq<usize>>, ultra: bool, start: (int, int), p: Seq<Node>, i: int)
    requires
        is_walk(g, ultra, start, p),
        0 <= i < p.len(),
    ensures
        inside(g, p[i].x, p[i].y),
        0 <= p[i].run <= max_run(ultra),
    decreases i,
{
    if i > 0 {
        lemma_walk_inside(g, ultra, start, p, i - 1);
        assert(step_at(g, ultra, p, i - 1));
    }
}

/// A walk without its last state is a walk, if a state is left.
pub proof fn lemma_walk_prefix(g: Seq<Seq<usize>>, ultra: bool, start: (int, int), p: Seq<Node>)
    requires
        is_walk(g, ultra, start, p),
        p.len() > 1,
    ensures
        is_walk(g, ultra, start, p.drop_last()),
        legal_step(g, ultra, p.drop_last().last(), p.last()),
{
    let q = p.drop_last();
    assert forall|i: int| 0 <= i < q.len() - 1 implies #[trigger] step_at(g, ultra, q, i) by {
        assert(step_at(g, ultra, p, i));
        assert(q[i] == p[i] && q[i + 1] == p[i + 1]);
    }
    let k = p.len() - 2;
    assert(step_at(g, ultra, p, k));
}

/// A walk followed by one legal step is a walk, and costs the entry of the
/// new cell more.
pub proof fn lemma_walk_extend(g: Seq<Seq<usize>>, ultra: bool, start: (int, int), p: Seq<Node>, n: Node)
    requires
        is_walk(g, ultra, start, p),
        legal_step(g, ultra, p.last(), n),
    ensures
        is_walk(g, ultra, start, p.push(n)),
        walk_cost(g, p.push(n)) == walk_cost(g, p) + entry_cost(g, n.x, n.y),
{
    let q = p.push(n);
    assert forall|i: int| 0 <= i < q.len() - 1 implies #[trigger] step_at(g, ultra, q, i) by {
        if i < p.len() - 1 {
            assert(step_at(g, ultra, p, i));
            assert(q[i] == p[i] && q[i + 1] == p[i + 1]);
        } else {
            assert(q[i] == p.last() && q[i + 1] == n);
        }
    }
    assert(q.drop_last() =~= p);
}

/// A walk costs no less on a grid whose cells cost no less.
pub proof fn lemma_cost_monotone(
    g1: Seq<Seq<usize>>,
    g2: Seq<Seq<usize>>,
    ultra: bool,
    start: (int, int),
    p: Seq<Node>,
)
    requires
        no_cheaper(g1, g2),
        is_walk(g1, ultra, start, p),
    ensures
        walk_cost(g1, p) <= walk_cost(g2, p),
    decreases p.len(),
{
    if p.len() > 1 {
        lemma_walk_prefix(g1, ultra, start, p);
        lemma_cost_monotone(g1, g2, ultra, start, p.drop_last());
        lemma_walk_inside(g1, ultra, start, p, p.len() - 1);
        assert(entry_cost(g1, p.last().x, p.last().y) <= entry_cost(g2, p.last().x, p.last().y));
    }
}

/// The grid `g` with the cost of one cell replaced by `v`.
pub open spec fn with_cost(g: Seq<Seq<usize>>, x: int, y: int, v: usize) -> Seq<Seq<usize>> {
    g.update(y, g[y].update(x, v))
}

/// Raising the cost of one cell leaves the shape and makes no cell cheaper.
pub proof fn lemma_raise_one_cell(g: Seq<Seq<usize>>, x: int, y: int, v: usize)
    requires
        inside(g, x, y),
        rectangular(g),
        entry_cost(g, x, y) <= v,
    ensures
        no_cheaper(g, with_cost(g, x, y, v)),
        rectangular(with_cost(g, x, y, v)),
{
    let h = with_cost(g, x, y, v);
    assert(g[y].len() == g[0].len());
    assert forall|i: int| 0 <= i < g.len() implies (#[trigger] g[i]).len() == h[i].len() by {}
    assert forall|a: int, b: int| inside(g, a, b) implies entry_cost(g, a, b) <= #[trigger] entry_cost(h, a, b) by {
        assert(g[b].len() == g[0].len());
    }
    assert forall|i: int| 0 <= i < h.len() implies (#[trigger] h[i]).len() == h[0].len() by {
        assert(g[i].len() == g[0].len());
    }
}

/// The least cost is unique: whatever is a least cost for the same grid,
/// mode, start and goal is the same number.
pub proof fn lemma_least_cost_unique(
    g: Seq<Seq<usize>>,
    ultra: bool,
    start: (int, int),
    goal: (int, int),
    c1: int,
    c2: int,
)
    requires
        is_least_cost(g, ultra, start, goal, c1),
        is_least_cost(g, ultra, start, goal, c2),
    ensures
        c1 == c2,
{
    let one = choose|p: Seq<Node>| is_route(g, ultra, start, goal, p) && walk_cost(g, p) == c1;
    let other = choose|p: Seq<Node>| is_route(g, ultra, start, goal, p) && walk_cost(g, p) == c2;
    assert(c1 <= walk_cost(g, other));
    assert(c2 <= walk_cost(g, one));
}

/// Making cells more expensive never makes the goal more or less reachable,
/// since the routes are the same.
pub proof fn lemma_reachable_ignores_costs(
    g1: Seq<Seq<usize>>,
    g2: Seq<Seq<usize>>,
    ultra: bool,
    start: (int, int),
    goal: (int, int),
)
    requires
        same_shape(g1, g2),
    ensures
        reachable(g1, ultra, start, goal) == reachable(g2, ultra, start, goal),
{
    if reachable(g1, ultra, start, goal) {
        let p = choose|p: Seq<Node>| is_route(g1, ultra, start, goal, p);
        lemma_walk_ignores_costs(g1, g2, ultra, start, p);
        assert(is_route(g2, ultra, start, goal, p));
    }
    if reachable(g2, ultra, start, goal) {
        let p = choose|p: Seq<Node>| is_route(g2, ultra, start, goal, p);
        assert(same_shape(g2, g1)) by {
            assert forall|y: int| 0 <= y < g2.len() implies (#[trigger] g2[y]).len() == g1[y].len() by {
                assert(g1[y].len() == g2[y].len());
            }
        }
        lemma_walk_ignores_costs(g2, g1, ultra, start, p);
        assert(is_route(g1, ultra, start, goal, p));
    }
}

/// The least cost never falls when cells become more expensive.
pub proof fn lemma_least_cost_monotone(
    g1: Seq<Seq<usize>>,
    g2: Seq<Seq<usize>>,
    ultra: bool,
    start: (int, int),
    goal: (int, int),
    c1: int,
    c2: int,
)
    requires
        no_cheaper(g1, g2),
        is_least_cost(g1, ultra, start, goal, c1),
        is_least_cost(g2, ultra, start, goal, c2),
    ensures
        c1 <= c2,
{
    let p = choose|p: Seq<Node>| is_route(g2, ultra, start, goal, p) && walk_cost(g2, p) == c2;
    assert(same_shape(g2, g1)) by {
        assert forall|y: int| 0 <= y < g2.len() implies (#[trigger] g2[y]).len() == g1[y].len() by {
            assert(g1[y].len() == g2[y].len());
        }
    }
    lemma_walk_ignores_costs(g2, g1, ultra, start, p);
    assert(is_route(g1, ultra, start, goal, p));
    lemma_cost_monotone(g1, g2, ultra, start, p);
}

/// The least cost never falls when the cost of a single cell is raised.
pub proof fn lemma_raising_a_cell_never_lowers_least_cost(
    g: Seq<Seq<usize>>,
    ultra: bool,
    start: (int, int),
    goal: (int, int),
    x: int,
    y: int,
    v: usize,
    before: int,
    after: int,
)
    requires
        rectangular(g),
        inside(g, x, y),
        entry_cost(g, x, y) <= v,
        is_least_cost(g, ultra, start, goal, before),
        is_least_cost(with_cost(g, x, y, v), ultra, start, goal, after),
    ensures
        before <= after,
{
    lemma_raise_one_cell(g, x, y, v);
    lemma_least_cost_monotone(g, with_cost(g, x, y, v), ultra, start, goal, before, after);
}

/// No step of a walk reverses the heading of the step before it.
pub proof fn lemma_no_reversal(g: Seq<Seq<usize>>, ultra: bool, start: (int, int), p: Seq<Node>, i: int)
    requires
        is_walk(g, ultra, start, p),
        0 <= i < p.len() - 1,
    ensures
        p[i + 1].dir != p[i].dir.opposite(),
{
    assert(step_at(g, ultra, p, i));
}

/// The run of a state counts cells: the `run` states that end with state `i`
/// of a walk all have its heading, each with a run one shorter than the next,
/// and the walk is at least that long.
pub proof fn lemma_run_counts_cells(
    g: Seq<Seq<usize>>,
    ultra: bool,
    start: (int, int),
    p: Seq<Node>,
    i: int,
    k: int,
)
    requires
        is_walk(g, ultra, start, p),
        0 <= i < p.len(),
        0 <= k < p[i].run,
    ensures
        k < i,
        p[i - k].dir == p[i].dir,
        p[i - k].run == p[i].run - k,
    decreases k,
{
    if k > 0 {
        lemma_run_counts_cells(g, ultra, start, p, i, k - 1);
        let j = i - (k - 1);
        assert(p[j].run == p[i].run - (k - 1));
        assert(p[j].run >= 2);
        assert(j > 0);
        assert(step_at(g, ultra, p, j - 1));
        assert(p[j - 1].run >= 1);
        assert(j - 1 > 0);
    } else {
        assert(p[i].run >= 1);
        assert(i > 0);
    }
}

/// In a walk a turn comes only after the mode's shortest run, and no run is
/// longer than the mode's longest: in the constrained mode no turn after
/// fewer than four cells, and never more than ten cells in one heading.
pub proof fn lemma_run_limits(g: Seq<Seq<usize>>, ultra: bool, start: (int, int), p: Seq<Node>, i: int)
    requires
        is_walk(g, ultra, start, p),
        0 <= i < p.len(),
    ensures
        0 <= p[i].run <= max_run(ultra),
        i + 1 < p.len() && p[i + 1].dir != p[i].dir ==> p[i].run >= min_run(ultra),
        ultra ==> p[i].run <= 10,
        ultra && i + 1 < p.len() && p[i + 1].dir != p[i].dir ==> p[i].run >= 4,
{
    lemma_walk_inside(g, ultra, start, p, i);
    if i + 1 < p.len() {
        assert(step_at(g, ultra, p, i));
    }
}

} // verus!
