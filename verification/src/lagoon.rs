//! The area of a trench that is dug step by step: the corner points, the
//! area they enclose, and the number of cells of the lagoon.

use vstd::prelude::*;

verus! {

/// The direction of one stretch of the trench.
#[derive(Copy, Clone, Debug, PartialEq, Eq, Structural)]
pub enum Direction {
    Up,
    Down,
    Left,
    Right,
}

/// The value lies in the range of `i64`.
pub open spec fn in_i64(v: int) -> bool {
    i64::MIN <= v <= i64::MAX
}

impl Direction {
    /// The point `n` cells from `c` in this direction; rows grow downwards.
    pub open spec fn moved(self, c: (i64, i64), n: i64) -> (int, int) {
        match self {
            Direction::Up => (c.0 as int, c.1 - n),
            Direction::Down => (c.0 as int, c.1 + n),
            Direction::Left => (c.0 - n, c.1 as int),
            Direction::Right => (c.0 + n, c.1 as int),
        }
    }

    /// The point `n` cells from `c` in this direction.
    pub fn move_in(&self, c: (i64, i64), n: i64) -> (r: (i64, i64))
        requires
            in_i64(self.moved(c, n).0),
            in_i64(self.moved(c, n).1),
        ensures
            (r.0 as int, r.1 as int) == self.moved(c, n),
    {
        let (x, y) = c;
        match self {
            Direction::Up => (x, y - n),
            Direction::Down => (x, y + n),
            Direction::Left => (x - n, y),
            Direction::Right => (x + n, y),
        }
    }

    /// The direction that a number stands for: 0 right, 1 down, 2 left, 3 up.
    pub fn from_i64(n: i64) -> (r: Option<Self>)
        ensures
            r == if n == 0 {
                Some(Direction::Right)
            } else if n == 1 {
                Some(Direction::Down)
            } else if n == 2 {
                Some(Direction::Left)
            } else if n == 3 {
                Some(Direction::Up)
            } else {
                None::<Direction>
            },
    {
        if n == 0 {
            Some(Direction::Right)
        } else if n == 1 {
            Some(Direction::Down)
        } else if n == 2 {
            Some(Direction::Left)
        } else if n == 3 {
            Some(Direction::Up)
        } else {
            None
        }
    }
}

/// What the edge from `p` to `q` adds to twice the signed area.
pub open spec fn edge_term(p: (i64, i64), q: (i64, i64)) -> int {
    (p.1 + q.1) * (p.0 - q.0)
}

/// Twice the signed area under the edges between consecutive points.
pub open spec fn twice_area(points: Seq<(i64, i64)>) -> int
    decreases points.len(),
{
    if points.len() < 2 {
        0
    } else {
        twice_area(points.drop_last()) + edge_term(points[points.len() - 2], points.last())
    }
}

/// The absolute value.
pub open spec fn magnitude(v: int) -> int {
    if v < 0 {
        -v
    } else {
        v
    }
}

/// Every sum, difference and product on the way to twice the area of the
/// points, and every partial sum of them, lies in the range of `i64`, and the
/// total has a magnitude that does.
pub open spec fn area_fits(points: Seq<(i64, i64)>) -> bool {
    &&& forall|i: int|
        0 <= i < points.len() - 1 ==> in_i64(points[i].1 + points[i + 1].1) && in_i64(
            points[i].0 - points[i + 1].0,
        ) && in_i64(#[trigger] edge_term(points[i], points[i + 1]))
    &&& forall|k: int| 0 <= k <= points.len() ==> in_i64(#[trigger] twice_area(points.take(k)))
    &&& in_i64(-twice_area(points))
}

/// The area that the edges between consecutive points enclose, rounded
/// down: half the magnitude of the sum of the edge terms.
pub fn shoelace(points: &[(i64, i64)]) -> (area: i64)
    requires
        area_fits(points@),
    ensures
        area == magnitude(twice_area(points@)) / 2,
{
    let n: usize = points.len();
    let mut sum: i64 = 0;
    let mut i: usize = 1;
    assert(points@.take(n as int) =~= points@);
    if n < 2 {
        return 0;
    }
    assert(twice_area(points@.take(1)) == 0);
    while i < n
        invariant
            1 <= i <= n,
            n == points@.len(),
            area_fits(points@),
            sum == twice_area(points@.take(i as int)),
        decreases n - i,
    {
        let (x1, y1) = points[i - 1];
        let (x2, y2) = points[i];
        proof {
            let k = i as int - 1;
            assert(in_i64(edge_term(points@[k], points@[k + 1])));
            let t = points@.take(i + 1);
            assert(t.drop_last() =~= points@.take(i as int));
            assert(in_i64(twice_area(points@.take(i + 1))));
        }
        sum = sum + (y1 + y2) * (x1 - x2);
        i = i + 1;
    }
    if sum < 0 {
        (0 - sum) / 2
    } else {
        sum / 2
    }
}

/// Half of `b`, rounded towards zero.
pub open spec fn half(b: int) -> int {
    if b < 0 {
        -((-b) / 2)
    } else {
        b / 2
    }
}

/// The number of cells of a lagoon with the given corner points and a
/// trench of `b` cells: the area, one, and half the trench.
pub fn pick(points: &[(i64, i64)], b: i64) -> (cells: i64)
    requires
        area_fits(points@),
        b > i64::MIN,
        in_i64(magnitude(twice_area(points@)) / 2 + 1 + half(b as int)),
    ensures
        cells == magnitude(twice_area(points@)) / 2 + 1 + half(b as int),
{
    let a = shoelace(points);
    let hb: i64 = if b < 0 {
        0 - ((0 - b) / 2)
    } else {
        b / 2
    };
    a + 1 + hb
}

/// Where the digger stands after the first `n` stretches of a plan that
/// starts at the origin.
pub open spec fn position(plan: Seq<(Direction, i64)>, n: int) -> (int, int)
    decreases n,
{
    if n <= 0 {
        (0, 0)
    } else {
        let p = position(plan, n - 1);
        let (d, steps) = plan[n - 1];
        match d {
            Direction::Up => (p.0, p.1 - steps),
            Direction::Down => (p.0, p.1 + steps),
            Direction::Left => (p.0 - steps, p.1),
            Direction::Right => (p.0 + steps, p.1),
        }
    }
}

/// The length of the first `n` stretches of a plan, taken together.
pub open spec fn trench(plan: Seq<(Direction, i64)>, n: int) -> int
    decreases n,
{
    if n <= 0 {
        0
    } else {
        trench(plan, n - 1) + plan[n - 1].1
    }
}

/// The corners that the first `n` stretches of a plan lead to.
pub open spec fn corners(plan: Seq<(Direction, i64)>, n: int) -> Seq<(i64, i64)>
    decreases n,
{
    if n <= 0 {
        Seq::empty()
    } else {
        corners(plan, n - 1).push((position(plan, n).0 as i64, position(plan, n).1 as i64))
    }
}

/// Every corner and every length of trench on the way lies in the range of
/// `i64`, and so does every number on the way to the area and to the count
/// of cells.
pub open spec fn plan_fits(plan: Seq<(Direction, i64)>) -> bool {
    let all = plan.len() as int;
    &&& forall|n: int|
        0 <= n <= plan.len() ==> in_i64((#[trigger] position(plan, n)).0) && in_i64(position(plan, n).1)
            && in_i64(trench(plan, n))
    &&& area_fits(corners(plan, all))
    &&& trench(plan, all) > i64::MIN
    &&& in_i64(magnitude(twice_area(corners(plan, all))) / 2 + 1 + half(trench(plan, all)))
}

/// The number of cells of the lagoon that a plan of stretches digs: the
/// area that the corners enclose, one, and half the length of the trench.
pub fn lagoon_size(plan: &Vec<(Direction, i64)>) -> (cells: i64)
    requires
        plan_fits(plan@),
    ensures
        cells == magnitude(twice_area(corners(plan@, plan@.len() as int))) / 2 + 1 + half(
            trench(plan@, plan@.len() as int),
        ),
{
    let mut b: i64 = 0;
    let mut p: (i64, i64) = (0, 0);
    let mut points: Vec<(i64, i64)> = Vec::new();
    let mut i: usize = 0;
    while i < plan.len()
        invariant
            i <= plan@.len(),
            plan_fits(plan@),
            b == trench(plan@, i as int),
            (p.0 as int, p.1 as int) == position(plan@, i as int),
            points@ == corners(plan@, i as int),
        decreases plan@.len() - i,
    {
        let (dir, steps) = plan[i];
        proof {
            let q = position(plan@, i + 1);
            assert(in_i64(q.0) && in_i64(q.1) && in_i64(trench(plan@, i + 1)));
            assert(q == dir.moved(p, steps));
        }
        b = b + steps;
        p = dir.move_in(p, steps);
        points.push(p);
        i = i + 1;
    }
    pick(points.as_slice(), b)
}

} // verus!
