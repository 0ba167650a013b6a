//! Bricks of unit cubes in a stack: which cubes a brick fills, which bricks
//! it rests on, and whether it can drop or be taken away.

use vstd::prelude::*;

verus! {

/// One of the three axes.
#[derive(Copy, Clone, Debug, PartialEq, Eq, Structural)]
pub enum Axis {
    X,
    Y,
    Z,
}

/// A cube of the stack, by its three coordinates.
#[derive(Copy, Clone, Debug, PartialEq, Eq, Structural)]
pub struct Point3D {
    pub x: i32,
    pub y: i32,
    pub z: i32,
}

/// A straight brick: `length` cubes from `start` along `axis`.
#[derive(Copy, Clone, Debug, PartialEq, Eq, Structural)]
pub struct Brick {
    pub axis: Axis,
    pub start: Point3D,
    pub length: i32,
}

impl Point3D {
    /// The coordinate on the axis.
    pub open spec fn coord(self, axis: Axis) -> i32 {
        match axis {
            Axis::X => self.x,
            Axis::Y => self.y,
            Axis::Z => self.z,
        }
    }

    /// The point can be moved by `amount` along the axis without leaving
    /// the range of the coordinates.
    pub open spec fn can_shift(self, axis: Axis, amount: int) -> bool {
        i32::MIN <= self.coord(axis) + amount <= i32::MAX
    }

    /// The point moved by `amount` along the axis.
    pub open spec fn shifted(self, axis: Axis, amount: int) -> Point3D {
        match axis {
            Axis::X => Point3D { x: (self.x + amount) as i32, ..self },
            Axis::Y => Point3D { y: (self.y + amount) as i32, ..self },
            Axis::Z => Point3D { z: (self.z + amount) as i32, ..self },
        }
    }

    /// The point moved by `amount` along the axis.
    pub fn add_axis(&self, axis: Axis, amount: i32) -> (p: Self)
        requires
            self.can_shift(axis, amount as int),
        ensures
            p == self.shifted(axis, amount as int),
    {
        match axis {
            Axis::X => Point3D { x: self.x + amount, y: self.y, z: self.z },
            Axis::Y => Point3D { x: self.x, y: self.y + amount, z: self.z },
            Axis::Z => Point3D { x: self.x, y: self.y, z: self.z + amount },
        }
    }
}

impl Brick {
    /// Every cube of the brick has coordinates in range.
    pub open spec fn in_range(self) -> bool {
        self.length > 0 ==> self.start.can_shift(self.axis, self.length - 1)
    }

    /// Cube number `p` of the brick.
    pub open spec fn cube(self, p: int) -> Point3D {
        self.start.shifted(self.axis, p)
    }

    /// One of the brick's cubes is among the points.
    pub open spec fn fills_any(self, points: Seq<Point3D>) -> bool {
        exists|p: int| 0 <= p < self.length && points.contains(#[trigger] self.cube(p))
    }

    /// The cubes of the brick that have nothing of it below them: the first
    /// cube of an upright brick, every cube of a lying one.
    pub open spec fn bottom(self) -> Seq<Point3D> {
        if self.axis == Axis::Z {
            seq![self.start]
        } else if self.length > 0 {
            Seq::new(self.length as nat, |p: int| self.cube(p))
        } else {
            Seq::empty()
        }
    }

    /// The brick one layer further down.
    pub open spec fn lowered(self) -> Brick {
        Brick { start: self.start.shifted(Axis::Z, -1), ..self }
    }

    /// The brick rests on `other`: another brick, with a cube right below
    /// one of this brick's bottom cubes.
    pub open spec fn rests_on(self, other: Brick) -> bool {
        other != self && other.fills_any(self.lowered().bottom())
    }

    /// The number of the given bricks that this brick rests on.
    pub open spec fn support_count(self, others: Seq<Brick>) -> nat
        decreases others.len(),
    {
        if others.len() == 0 {
            0
        } else {
            self.support_count(others.drop_last()) + if self.rests_on(others.last()) {
                1nat
            } else {
                0nat
            }
        }
    }

    /// The brick can be lowered by a layer within the range of the
    /// coordinates.
    pub open spec fn can_lower(self) -> bool {
        self.in_range() && self.start.can_shift(Axis::Z, -1)
    }

    /// Whether one of the brick's cubes is among the points.
    pub fn contains_any_point(&self, points: &[Point3D]) -> (r: bool)
        requires
            self.in_range(),
        ensures
            r == self.fills_any(points@),
    {
        let mut p: i32 = 0;
        while p < self.length
            invariant
                0 <= p,
                self.in_range(),
                forall|q: int| 0 <= q < p ==> !points@.contains(#[trigger] self.cube(q)),
            decreases self.length - p,
        {
            let c = self.start.add_axis(self.axis, p);
            let mut i: usize = 0;
            while i < points.len()
                invariant
                    i <= points@.len(),
                    0 <= p < self.length,
                    c == self.cube(p as int),
                    forall|j: int| 0 <= j < i ==> points@[j] != c,
                decreases points@.len() - i,
            {
                if points[i] == c {
                    assert(points@.contains(self.cube(p as int)));
                    return true;
                }
                i = i + 1;
            }
            p = p + 1;
        }
        false
    }

    /// The cubes of the brick that have nothing of it below them.
    pub fn get_bottom_points(&self) -> (v: Vec<Point3D>)
        requires
            self.in_range(),
        ensures
            v@ == self.bottom(),
    {
        let mut v: Vec<Point3D> = Vec::new();
        if self.axis == Axis::Z {
            v.push(self.start);
            assert(v@ =~= self.bottom());
            return v;
        }
        let mut p: i32 = 0;
        while p < self.length
            invariant
                0 <= p,
                self.length > 0 ==> p <= self.length,
                self.length <= 0 ==> p == 0,
                self.in_range(),
                v@.len() == p,
                forall|q: int| 0 <= q < p ==> v@[q] == self.cube(q),
            decreases self.length - p,
        {
            v.push(self.start.add_axis(self.axis, p));
            p = p + 1;
        }
        assert(v@ =~= self.bottom());
        v
    }

    /// The number of the given bricks that this brick rests on.
    pub fn get_supporting_bricks(&self, others: &[Brick]) -> (n: usize)
        requires
            self.can_lower(),
            forall|i: int| 0 <= i < others@.len() ==> (#[trigger] others@[i]).in_range(),
        ensures
            n == self.support_count(others@),
    {
        let below = Brick { axis: self.axis, start: self.start.add_axis(Axis::Z, -1), length: self.length };
        assert(below == self.lowered());
        let bottom_points = below.get_bottom_points();
        let mut n: usize = 0;
        let mut i: usize = 0;
        assert(others@.take(0) =~= Seq::<Brick>::empty());
        while i < others.len()
            invariant
                i <= others@.len(),
                n <= i,
                n == self.support_count(others@.take(i as int)),
                bottom_points@ == self.lowered().bottom(),
                forall|k: int| 0 <= k < others@.len() ==> (#[trigger] others@[k]).in_range(),
            decreases others@.len() - i,
        {
            let b = &others[i];
            proof {
                let t = others@.take(i + 1);
                assert(t.drop_last() =~= others@.take(i as int));
                assert(t.last() == *b);
            }
            if *b != *self && b.contains_any_point(bottom_points.as_slice()) {
                n = n + 1;
            }
            i = i + 1;
        }
        assert(others@.take(others@.len() as int) =~= others@);
        n
    }

    /// The brick a layer further down, if it rests on none of the bricks and
    /// is not on the ground, and whether it moved.
    pub fn move_down_if_possible(&self, others: &[Brick]) -> (r: (Brick, bool))
        requires
            self.can_lower(),
            forall|i: int| 0 <= i < others@.len() ==> (#[trigger] others@[i]).in_range(),
        ensures
            r.1 == (self.support_count(others@) == 0 && self.start.z > 1),
            r.0 == if r.1 {
                self.lowered()
            } else {
                *self
            },
    {
        if self.get_supporting_bricks(others) == 0 && self.start.z > 1 {
            (Brick { axis: self.axis, start: self.start.add_axis(Axis::Z, -1), length: self.length }, true)
        } else {
            (*self, false)
        }
    }

    /// Whether the brick rests on `other`.
    pub fn is_supported_by(&self, other: Brick) -> (r: bool)
        requires
            self.can_lower(),
            other.in_range(),
        ensures
            r == self.rests_on(other),
    {
        let one = [other];
        proof {
            assert(one@.drop_last() =~= Seq::<Brick>::empty());
            assert(one@.last() == other);
            assert(self.support_count(one@.drop_last()) == 0);
        }
        self.get_supporting_bricks(one.as_slice()) == 1
    }

    /// Taking the brick away leaves every brick supported: none of the given
    /// bricks rests on this one and on no other.
    pub fn can_disintegrate(&self, others: &[Brick]) -> (r: bool)
        requires
            self.in_range(),
            forall|i: int| 0 <= i < others@.len() ==> (#[trigger] others@[i]).can_lower(),
        ensures
            r == forall|i: int|
                0 <= i < others@.len() ==> !((#[trigger] others@[i]).rests_on(*self) && others@[i].support_count(
                    others@,
                ) == 1),
    {
        let mut i: usize = 0;
        while i < others.len()
            invariant
                i <= others@.len(),
                self.in_range(),
                forall|k: int| 0 <= k < others@.len() ==> (#[trigger] others@[k]).can_lower(),
                forall|k: int|
                    0 <= k < i ==> !((#[trigger] others@[k]).rests_on(*self) && others@[k].support_count(others@)
                        == 1),
            decreases others@.len() - i,
        {
            let brick = &others[i];
            if brick.is_supported_by(*self) && brick.get_supporting_bricks(others) == 1 {
                return false;
            }
            i = i + 1;
        }
        true
    }
}

/// The brick at place `i` rests on none of the bricks and is not on the
/// ground.
pub open spec fn can_drop(bs: Seq<Brick>, i: int) -> bool {
    bs[i].support_count(bs) == 0 && bs[i].start.z > 1
}

/// No brick can drop.
pub open spec fn at_rest(bs: Seq<Brick>) -> bool {
    forall|i: int| 0 <= i < bs.len() ==> !#[trigger] can_drop(bs, i)
}

/// The bricks after the brick at place `i` has dropped by a layer, if it
/// can.
pub open spec fn drop_at(bs: Seq<Brick>, i: int) -> Seq<Brick> {
    if can_drop(bs, i) {
        bs.update(i, bs[i].lowered())
    } else {
        bs
    }
}

/// The bricks after each of the first `n`, in turn, has dropped by a layer
/// if it could.
pub open spec fn sweep(bs: Seq<Brick>, n: int) -> Seq<Brick>
    decreases n,
{
    if n <= 0 {
        bs
    } else {
        drop_at(sweep(bs, n - 1), n - 1)
    }
}

/// The bricks after `r` sweeps over all of them.
pub open spec fn after_sweeps(bs: Seq<Brick>, r: nat) -> Seq<Brick>
    decreases r,
{
    if r == 0 {
        bs
    } else {
        sweep(after_sweeps(bs, (r - 1) as nat), bs.len() as int)
    }
}

/// The number of the first `n` places at which the two stacks differ.
pub open spec fn moved_count(before: Seq<Brick>, after: Seq<Brick>, n: int) -> int
    decreases n,
{
    if n <= 0 {
        0
    } else {
        moved_count(before, after, n - 1) + if before[n - 1] != after[n - 1] {
            1int
        } else {
            0int
        }
    }
}

/// How far above the ground a brick starts.
pub open spec fn height(b: Brick) -> int {
    if b.start.z > 1 {
        b.start.z - 1
    } else {
        0
    }
}

/// How far above the ground the first `n` bricks start, taken together.
pub open spec fn total_height(bs: Seq<Brick>, n: int) -> int
    decreases n,
{
    if n <= 0 {
        0
    } else {
        total_height(bs, n - 1) + height(bs[n - 1])
    }
}

/// Replacing one brick changes the total height by what its own height
/// changes.
pub proof fn lemma_height_update(bs: Seq<Brick>, i: int, b: Brick, n: int)
    requires
        0 <= i < bs.len(),
        0 <= n <= bs.len(),
    ensures
        0 <= total_height(bs, n),
        total_height(bs.update(i, b), n) == total_height(bs, n) + if i < n {
            height(b) - height(bs[i])
        } else {
            0
        },
    decreases n,
{
    if n > 0 {
        lemma_height_update(bs, i, b, n - 1);
    }
}

/// Sweep number `r` is the first after which no brick can drop.
pub open spec fn is_rest_round(bs: Seq<Brick>, r: nat) -> bool {
    &&& at_rest(after_sweeps(bs, r))
    &&& forall|k: nat| k < r ==> !at_rest(#[trigger] after_sweeps(bs, k))
}

/// The number of the first sweep after which no brick can drop.
pub open spec fn rest_round(bs: Seq<Brick>) -> nat {
    choose|r: nat| is_rest_round(bs, r)
}

/// The bricks as they are when none can drop any more.
pub open spec fn come_to_rest(bs: Seq<Brick>) -> Seq<Brick> {
    after_sweeps(bs, rest_round(bs))
}

/// The number of bricks that drop before all rest.
pub open spec fn fallen(bs: Seq<Brick>) -> int {
    moved_count(bs, come_to_rest(bs), bs.len() as int)
}

/// There is one first sweep after which no brick can drop, if any.
pub proof fn lemma_rest_round(bs: Seq<Brick>, r: nat)
    requires
        is_rest_round(bs, r),
    ensures
        rest_round(bs) == r,
{
    let c = rest_round(bs);
    assert(is_rest_round(bs, c));
    if c < r {
        assert(!at_rest(after_sweeps(bs, c)));
    } else if r < c {
        assert(!at_rest(after_sweeps(bs, r)));
    }
}

/// The brick is `now` what it was `then`, but for the layers it dropped.
pub open spec fn dropped_from(then: Brick, now: Brick) -> bool {
    &&& now.axis == then.axis
    &&& now.length == then.length
    &&& now.start.x == then.start.x
    &&& now.start.y == then.start.y
    &&& now.start.z <= then.start.z
}

/// Lets the bricks drop, layer by layer and in sweeps over all of them,
/// until none can drop any more, and counts the bricks that dropped.
pub fn fall_bricks(bricks: &mut Vec<Brick>) -> (fell: usize)
    requires
        forall|i: int| 0 <= i < old(bricks)@.len() ==> (#[trigger] old(bricks)@[i]).can_lower(),
    ensures
        final(bricks)@.len() == old(bricks)@.len(),
        at_rest(final(bricks)@),
        exists|r: nat|
            final(bricks)@ == #[trigger] after_sweeps(old(bricks)@, r) && forall|k: nat|
                k < r ==> !at_rest(#[trigger] after_sweeps(old(bricks)@, k)),
        forall|i: int| 0 <= i < old(bricks)@.len() ==> dropped_from(old(bricks)@[i], #[trigger] final(bricks)@[i]),
        fell == moved_count(old(bricks)@, final(bricks)@, old(bricks)@.len() as int),
        final(bricks)@ == come_to_rest(old(bricks)@),
        fell == fallen(old(bricks)@),
{
    let n: usize = bricks.len();
    let ghost first = bricks@;
    let mut dropped: Vec<bool> = Vec::new();
    let mut k: usize = 0;
    while k < n
        invariant
            k <= n,
            dropped@.len() == k,
            forall|i: int| 0 <= i < k ==> !dropped@[i],
        decreases n - k,
    {
        dropped.push(false);
        k = k + 1;
    }
    let ghost mut rounds: nat = 0;
    let mut moved_any = true;
    proof {
        if n > 0 {
            lemma_height_update(first, 0, first[0], n as int);
        }
    }
    while moved_any
        invariant
            n == first.len(),
            bricks@.len() == n,
            dropped@.len() == n,
            bricks@ == after_sweeps(first, rounds),
            forall|j: nat| j < rounds ==> !at_rest(#[trigger] after_sweeps(first, j)),
            !moved_any ==> at_rest(bricks@),
            forall|i: int| 0 <= i < n ==> (#[trigger] bricks@[i]).can_lower(),
            forall|i: int| 0 <= i < n ==> dropped_from(first[i], #[trigger] bricks@[i]),
            forall|i: int| 0 <= i < n ==> #[trigger] dropped@[i] == (bricks@[i] != first[i]),
            0 <= total_height(bricks@, n as int),
        decreases total_height(bricks@, n as int), (if moved_any { 1int } else { 0int }),
    {
        moved_any = false;
        let ghost state = bricks@;
        let mut i: usize = 0;
        while i < n
            invariant
                i <= n,
                n == first.len(),
                state.len() == n,
                bricks@.len() == n,
                dropped@.len() == n,
                bricks@ == sweep(state, i as int),
                !moved_any ==> bricks@ == state && forall|j: int| 0 <= j < i ==> !#[trigger] can_drop(state, j),
                moved_any ==> !at_rest(state) && total_height(bricks@, n as int) < total_height(state, n as int),
                forall|j: int| 0 <= j < n ==> (#[trigger] bricks@[j]).can_lower(),
                forall|j: int| 0 <= j < n ==> dropped_from(first[j], #[trigger] bricks@[j]),
                forall|j: int| 0 <= j < n ==> #[trigger] dropped@[j] == (bricks@[j] != first[j]),
                0 <= total_height(bricks@, n as int),
            decreases n - i,
        {
            let cur = bricks[i];
            let ghost before = bricks@;
            assert(cur.can_lower());
            assert forall|j: int| 0 <= j < bricks@.len() implies (#[trigger] bricks@[j]).in_range() by {
                assert(bricks@[j].can_lower());
            }
            let (brick, moved) = cur.move_down_if_possible(bricks.as_slice());
            assert(moved == can_drop(before, i as int));
            if moved {
                proof {
                    if !moved_any {
                        assert(can_drop(state, i as int));
                    }
                    lemma_height_update(before, i as int, brick, n as int);
                }
                moved_any = true;
                dropped.set(i, true);
                bricks.set(i, brick);
                assert(bricks@ == drop_at(before, i as int));
                assert(brick.can_lower());
                proof {
                    lemma_height_update(bricks@, i as int, brick, n as int);
                }
            }
            assert(bricks@ == drop_at(before, i as int));
            i = i + 1;
        }
        proof {
            if moved_any {
                assert(bricks@ == after_sweeps(first, rounds + 1));
                rounds = rounds + 1;
            } else {
                assert(at_rest(bricks@));
            }
        }
    }
    proof {
        lemma_rest_round(first, rounds);
    }
    let mut fell: usize = 0;
    let mut j: usize = 0;
    while j < n
        invariant
            j <= n,
            n == first.len(),
            bricks@.len() == n,
            dropped@.len() == n,
            fell <= j,
            fell == moved_count(first, bricks@, j as int),
            forall|i: int| 0 <= i < n ==> #[trigger] dropped@[i] == (bricks@[i] != first[i]),
        decreases n - j,
    {
        if dropped[j] {
            fell = fell + 1;
        }
        j = j + 1;
    }
    fell
}

/// The brick at place `i` can be taken away: no other brick rests on it
/// and on no other.
pub open spec fn removable(bs: Seq<Brick>, i: int) -> bool {
    forall|j: int|
        0 <= j < bs.len() ==> !((#[trigger] bs[j]).rests_on(bs[i]) && bs[j].support_count(bs) == 1)
}

/// The number of the first `n` bricks that can be taken away.
pub open spec fn removable_count(bs: Seq<Brick>, n: int) -> int
    decreases n,
{
    if n <= 0 {
        0
    } else {
        removable_count(bs, n - 1) + if removable(bs, n - 1) {
            1int
        } else {
            0int
        }
    }
}

/// The number of bricks that can be taken away.
pub fn count_removable(bricks: &Vec<Brick>) -> (n: usize)
    requires
        forall|i: int| 0 <= i < bricks@.len() ==> (#[trigger] bricks@[i]).can_lower(),
    ensures
        n == removable_count(bricks@, bricks@.len() as int),
{
    let mut n: usize = 0;
    let mut i: usize = 0;
    while i < bricks.len()
        invariant
            i <= bricks@.len(),
            n <= i,
            n == removable_count(bricks@, i as int),
            forall|k: int| 0 <= k < bricks@.len() ==> (#[trigger] bricks@[k]).can_lower(),
        decreases bricks@.len() - i,
    {
        if bricks[i].can_disintegrate(bricks.as_slice()) {
            n = n + 1;
        }
        i = i + 1;
    }
    n
}

/// The number of other bricks that drop when each of the first `n` bricks
/// in turn is taken away alone, taken together.
pub open spec fn chain_count(bs: Seq<Brick>, n: int) -> int
    decreases n,
{
    if n <= 0 {
        0
    } else {
        chain_count(bs, n - 1) + fallen(bs.remove(n - 1))
    }
}

/// The number of other bricks that drop when a brick is taken away, summed
/// over the bricks.
pub fn chain_reaction(bricks: &Vec<Brick>) -> (total: usize)
    requires
        forall|i: int| 0 <= i < bricks@.len() ==> (#[trigger] bricks@[i]).can_lower(),
        bricks@.len() * bricks@.len() <= usize::MAX,
    ensures
        total == chain_count(bricks@, bricks@.len() as int),
{
    let n: usize = bricks.len();
    let mut total: usize = 0;
    let mut i: usize = 0;
    while i < n
        invariant
            n == bricks@.len(),
            n * n <= usize::MAX,
            i <= n,
            total == chain_count(bricks@, i as int),
            total <= i * n,
            forall|k: int| 0 <= k < n ==> (#[trigger] bricks@[k]).can_lower(),
        decreases n - i,
    {
        let mut rest: Vec<Brick> = Vec::new();
        let mut j: usize = 0;
        while j < n
            invariant
                n == bricks@.len(),
                i < n,
                j <= n,
                rest@ == if j <= i {
                    bricks@.take(j as int)
                } else {
                    bricks@.remove(i as int).take(j - 1)
                },
            decreases n - j,
        {
            if j != i {
                rest.push(bricks[j]);
            }
            proof {
                if j < i {
                    assert(rest@ =~= bricks@.take(j + 1));
                } else if j == i {
                    assert(rest@ =~= bricks@.remove(i as int).take(j as int));
                } else {
                    assert(rest@ =~= bricks@.remove(i as int).take(j as int));
                }
            }
            j = j + 1;
        }
        assert(rest@ =~= bricks@.remove(i as int));
        let fell = fall_bricks(&mut rest);
        proof {
            lemma_moved_count_bound(bricks@.remove(i as int), come_to_rest(bricks@.remove(i as int)), n - 1);
            assert(i * n + n == (i + 1) * n) by (nonlinear_arith);
            assert((i + 1) * n <= n * n) by (nonlinear_arith)
                requires
                    i + 1 <= n,
            ;
        }
        total = total + fell;
        i = i + 1;
    }
    total
}

/// No more places differ than there are.
pub proof fn lemma_moved_count_bound(before: Seq<Brick>, after: Seq<Brick>, n: int)
    requires
        0 <= n,
    ensures
        0 <= moved_count(before, after, n) <= n,
    decreases n,
{
    if n > 0 {
        lemma_moved_count_bound(before, after, n - 1);
    }
}

} // verus!
