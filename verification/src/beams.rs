//! Beams of light in a contraption of mirrors and splitters: where a beam
//! goes on from a tile, and which tiles the light reaches.

use vstd::prelude::*;
use std::collections::VecDeque;
use crate::mirrors::{MirrorType, BeamDirection, push_boundschecked, lands_inside};
use crate::table::{lemma_cell_in_range, lemma_cell_injective};

verus! {

/// A beam on a tile: the column, the row, and the direction of travel.
pub struct Beam {
    pub x: int,
    pub y: int,
    pub dir: BeamDirection,
}

/// A beam as it waits to be followed.
pub type Waiting = (usize, usize, BeamDirection);

/// The change of the column that one step in the direction makes.
pub open spec fn dx(d: BeamDirection) -> int {
    match d {
        BeamDirection::Leftwards => -1,
        BeamDirection::Rightwards => 1,
        _ => 0,
    }
}

/// The change of the row that one step in the direction makes.
pub open spec fn dy(d: BeamDirection) -> int {
    match d {
        BeamDirection::Upwards => -1,
        BeamDirection::Downwards => 1,
        _ => 0,
    }
}

/// The position of a direction in the order up, down, left, right.
pub open spec fn ordinal(d: BeamDirection) -> int {
    match d {
        BeamDirection::Upwards => 0,
        BeamDirection::Downwards => 1,
        BeamDirection::Leftwards => 2,
        BeamDirection::Rightwards => 3,
    }
}

/// The directions in which light leaves a tile that it enters in direction
/// `d`: empty space and a splitter met at its pointed end let it pass, a
/// splitter met at its flat side sends it both ways along the splitter, and
/// a mirror turns it by a quarter.
pub open spec fn outs(t: MirrorType, d: BeamDirection) -> (BeamDirection, Option<BeamDirection>) {
    match d {
        BeamDirection::Rightwards => match t {
            MirrorType::Empty | MirrorType::HorizontalSplit => (BeamDirection::Rightwards, None),
            MirrorType::VerticalSplit => (BeamDirection::Downwards, Some(BeamDirection::Upwards)),
            MirrorType::RightMirror => (BeamDirection::Upwards, None),
            MirrorType::LeftMirror => (BeamDirection::Downwards, None),
        },
        BeamDirection::Leftwards => match t {
            MirrorType::Empty | MirrorType::HorizontalSplit => (BeamDirection::Leftwards, None),
            MirrorType::VerticalSplit => (BeamDirection::Downwards, Some(BeamDirection::Upwards)),
            MirrorType::RightMirror => (BeamDirection::Downwards, None),
            MirrorType::LeftMirror => (BeamDirection::Upwards, None),
        },
        BeamDirection::Upwards => match t {
            MirrorType::Empty | MirrorType::VerticalSplit => (BeamDirection::Upwards, None),
            MirrorType::HorizontalSplit => (BeamDirection::Leftwards, Some(BeamDirection::Rightwards)),
            MirrorType::RightMirror => (BeamDirection::Rightwards, None),
            MirrorType::LeftMirror => (BeamDirection::Leftwards, None),
        },
        BeamDirection::Downwards => match t {
            MirrorType::Empty | MirrorType::VerticalSplit => (BeamDirection::Downwards, None),
            MirrorType::HorizontalSplit => (BeamDirection::Leftwards, Some(BeamDirection::Rightwards)),
            MirrorType::RightMirror => (BeamDirection::Leftwards, None),
            MirrorType::LeftMirror => (BeamDirection::Rightwards, None),
        },
    }
}

/// The contents of a contraption given as a vector of rows.
pub open spec fn field(grid: Seq<Vec<MirrorType>>) -> Seq<Seq<MirrorType>> {
    Seq::new(grid.len(), |i: int| grid[i]@)
}

/// The contraption has a tile, every row is as long as the first, and the
/// numbers of rows and columns fit a machine word.
pub open spec fn is_field(g: Seq<Seq<MirrorType>>) -> bool {
    &&& 0 < g.len() <= usize::MAX
    &&& 0 < g[0].len() <= usize::MAX
    &&& forall|i: int| 0 <= i < g.len() ==> (#[trigger] g[i]).len() == g[0].len()
}

/// Column `x` of row `y` is a tile of the contraption.
pub open spec fn on_field(g: Seq<Seq<MirrorType>>, x: int, y: int) -> bool {
    0 <= y < g.len() && 0 <= x < g[0].len()
}

/// Light that travels as beam `a` goes on as beam `b`: in one of the
/// directions in which it leaves `a`'s tile, on the next tile in that
/// direction.
pub open spec fn beam_step(g: Seq<Seq<MirrorType>>, a: Beam, b: Beam) -> bool {
    &&& on_field(g, a.x, a.y)
    &&& on_field(g, b.x, b.y)
    &&& (b.dir == outs(g[a.y][a.x], a.dir).0 || Some(b.dir) == outs(g[a.y][a.x], a.dir).1)
    &&& b.x == a.x + dx(b.dir)
    &&& b.y == a.y + dy(b.dir)
}

/// The step from beam `i` of a sequence to the next is one that light takes.
pub open spec fn hop_at(g: Seq<Seq<MirrorType>>, p: Seq<Beam>, i: int) -> bool {
    beam_step(g, p[i], p[i + 1])
}

/// The sequence follows the light from the beam `start`.
pub open spec fn follows(g: Seq<Seq<MirrorType>>, start: Beam, p: Seq<Beam>) -> bool {
    &&& p.len() > 0
    &&& p[0] == start
    &&& on_field(g, start.x, start.y)
    &&& forall|i: int| 0 <= i < p.len() - 1 ==> #[trigger] hop_at(g, p, i)
}

/// The light that starts as beam `start` travels as beam `b` at some time.
pub open spec fn reaches(g: Seq<Seq<MirrorType>>, start: Beam, b: Beam) -> bool {
    exists|p: Seq<Beam>| #[trigger] follows(g, start, p) && p.last() == b
}

/// The light that starts as beam `start` passes the tile in some direction.
pub open spec fn energised(g: Seq<Seq<MirrorType>>, start: Beam, x: int, y: int) -> bool {
    ||| reaches(g, start, Beam { x, y, dir: BeamDirection::Upwards })
    ||| reaches(g, start, Beam { x, y, dir: BeamDirection::Downwards })
    ||| reaches(g, start, Beam { x, y, dir: BeamDirection::Leftwards })
    ||| reaches(g, start, Beam { x, y, dir: BeamDirection::Rightwards })
}

/// The number of energised tiles among the first `cols` of row `y`.
pub open spec fn lit_in_row(g: Seq<Seq<MirrorType>>, start: Beam, y: int, cols: int) -> int
    decreases cols,
{
    if cols <= 0 {
        0
    } else {
        lit_in_row(g, start, y, cols - 1) + if energised(g, start, cols - 1, y) {
            1int
        } else {
            0int
        }
    }
}

/// The number of energised tiles in the first `rows` rows.
pub open spec fn lit_in_rows(g: Seq<Seq<MirrorType>>, start: Beam, rows: int) -> int
    decreases rows,
{
    if rows <= 0 {
        0
    } else {
        lit_in_rows(g, start, rows - 1) + lit_in_row(g, start, rows - 1, g[0].len() as int)
    }
}

/// The number of tiles that the light passes which starts as the beam.
pub open spec fn lit(g: Seq<Seq<MirrorType>>, start: Beam) -> int {
    lit_in_rows(g, start, g.len() as int)
}

/// The slot of a beam in a table with four slots for each tile.
pub open spec fn beam_slot(w: int, b: Beam) -> int {
    (b.y * w + b.x) * 4 + ordinal(b.dir)
}

/// The table marks the beam.
pub open spec fn seen(visited: Seq<bool>, w: int, b: Beam) -> bool {
    visited[beam_slot(w, b)]
}

/// The beam that a waiting entry stands for.
pub open spec fn beam_of(e: Waiting) -> Beam {
    Beam { x: e.0 as int, y: e.1 as int, dir: e.2 }
}

/// The beam is among those that wait.
pub open spec fn queued(q: Seq<Waiting>, b: Beam) -> bool {
    exists|i: int| 0 <= i < q.len() && beam_of(#[trigger] q[i]) == b
}

/// Light that travels as beam `a` and goes on as `b` reaches `b` where it
/// reaches `a`.
pub proof fn lemma_reaches_step(g: Seq<Seq<MirrorType>>, start: Beam, a: Beam, b: Beam)
    requires
        reaches(g, start, a),
        beam_step(g, a, b),
    ensures
        reaches(g, start, b),
{
    let p = choose|p: Seq<Beam>| #[trigger] follows(g, start, p) && p.last() == a;
    let q = p.push(b);
    assert forall|i: int| 0 <= i < q.len() - 1 implies #[trigger] hop_at(g, q, i) by {
        if i < p.len() - 1 {
            assert(hop_at(g, p, i));
            assert(q[i] == p[i] && q[i + 1] == p[i + 1]);
        } else {
            assert(q[i] == a && q[i + 1] == b);
        }
    }
    assert(follows(g, start, q) && q.last() == b);
}

/// The light reaches the beam it starts as.
pub proof fn lemma_reaches_start(g: Seq<Seq<MirrorType>>, start: Beam)
    requires
        on_field(g, start.x, start.y),
    ensures
        reaches(g, start, start),
{
    let p = seq![start];
    assert(follows(g, start, p) && p.last() == start);
}

/// A table that marks the start, and with every beam it marks the beams
/// that the light goes on as, marks every beam that the light reaches.
pub proof fn lemma_closed_table(g: Seq<Seq<MirrorType>>, start: Beam, visited: Seq<bool>, p: Seq<Beam>)
    requires
        seen(visited, g[0].len() as int, start),
        forall|a: Beam, b: Beam|
            seen(visited, g[0].len() as int, a) && #[trigger] beam_step(g, a, b) ==> seen(
                visited,
                g[0].len() as int,
                b,
            ),
        follows(g, start, p),
    ensures
        seen(visited, g[0].len() as int, p.last()),
    decreases p.len(),
{
    if p.len() > 1 {
        let q = p.drop_last();
        assert forall|i: int| 0 <= i < q.len() - 1 implies #[trigger] hop_at(g, q, i) by {
            assert(hop_at(g, p, i));
            assert(q[i] == p[i] && q[i + 1] == p[i + 1]);
        }
        lemma_closed_table(g, start, visited, q);
        assert(hop_at(g, p, p.len() - 2));
        assert(beam_step(g, q.last(), p.last()));
    }
}

/// The entry for the beam that leaves the tile of `a` in direction `d`, if
/// the next tile in that direction lies on the field.
pub open spec fn sent_to(g: Seq<Seq<MirrorType>>, a: Beam, d: BeamDirection) -> Seq<Waiting> {
    if on_field(g, a.x + dx(d), a.y + dy(d)) {
        seq![((a.x + dx(d)) as usize, (a.y + dy(d)) as usize, d)]
    } else {
        Seq::empty()
    }
}

/// The entries for the beams that the light goes on as from beam `a`.
pub open spec fn sent(g: Seq<Seq<MirrorType>>, a: Beam) -> Seq<Waiting> {
    let o = outs(g[a.y][a.x], a.dir);
    sent_to(g, a, o.0) + match o.1 {
        Some(d) => sent_to(g, a, d),
        None => Seq::empty(),
    }
}

/// The entry stands for a beam on the field that the light reaches.
pub open spec fn waiting_ok(g: Seq<Seq<MirrorType>>, start: Beam, e: Waiting) -> bool {
    on_field(g, e.0 as int, e.1 as int) && reaches(g, start, beam_of(e))
}

/// What holds while the light is followed: every waiting and every marked
/// beam is one that the light reaches; with every marked beam the beams
/// that the light goes on as are marked or wait; and the start is marked
/// or waits.
pub open spec fn following(g: Seq<Seq<MirrorType>>, start: Beam, visited: Seq<bool>, q: Seq<Waiting>) -> bool {
    let w = g[0].len() as int;
    &&& is_field(g)
    &&& on_field(g, start.x, start.y)
    &&& visited.len() == g.len() * w * 4
    &&& forall|i: int| 0 <= i < q.len() ==> waiting_ok(g, start, #[trigger] q[i])
    &&& forall|b: Beam| on_field(g, b.x, b.y) && #[trigger] seen(visited, w, b) ==> reaches(g, start, b)
    &&& forall|a: Beam, b: Beam|
        seen(visited, w, a) && #[trigger] beam_step(g, a, b) ==> seen(visited, w, b) || queued(q, b)
    &&& seen(visited, w, start) || queued(q, start)
}

/// The slot of a beam on the field lies in the table, and differs from the
/// slot of any other beam on the field.
pub proof fn lemma_beam_slot(g: Seq<Seq<MirrorType>>, a: Beam, b: Beam)
    requires
        is_field(g),
        on_field(g, a.x, a.y),
        on_field(g, b.x, b.y),
    ensures
        0 <= beam_slot(g[0].len() as int, a) < g.len() * g[0].len() * 4,
        beam_slot(g[0].len() as int, a) == beam_slot(g[0].len() as int, b) ==> a == b,
{
    let w = g[0].len() as int;
    let h = g.len() as int;
    lemma_cell_in_range(w, h, a.x, a.y);
    lemma_cell_in_range(w, h, b.x, b.y);
    assert(h * w * 4 >= (a.y * w + a.x + 1) * 4);
    if beam_slot(w, a) == beam_slot(w, b) {
        assert(a.y * w + a.x == b.y * w + b.x);
        assert(ordinal(a.dir) == ordinal(b.dir));
        lemma_cell_injective(w, a.x, a.y, b.x, b.y);
    }
}

/// Taking out a waiting beam that is marked keeps what holds while the
/// light is followed.
pub proof fn lemma_pop_seen(g: Seq<Seq<MirrorType>>, start: Beam, visited: Seq<bool>, q: Seq<Waiting>)
    requires
        following(g, start, visited, q),
        q.len() > 0,
        seen(visited, g[0].len() as int, beam_of(q[0])),
    ensures
        following(g, start, visited, q.subrange(1, q.len() as int)),
{
    let w = g[0].len() as int;
    let r = q.subrange(1, q.len() as int);
    assert forall|b: Beam| queued(q, b) implies seen(visited, w, b) || queued(r, b) by {
        let i = choose|i: int| 0 <= i < q.len() && beam_of(#[trigger] q[i]) == b;
        if i > 0 {
            assert(beam_of(r[i - 1]) == b);
        }
    }
    assert forall|i: int| 0 <= i < r.len() implies waiting_ok(g, start, #[trigger] r[i]) by {
        assert(waiting_ok(g, start, q[i + 1]));
    }
    assert forall|a: Beam, b: Beam| seen(visited, w, a) && #[trigger] beam_step(g, a, b) implies seen(
        visited,
        w,
        b,
    ) || queued(r, b) by {
        if !seen(visited, w, b) {
            assert(queued(q, b));
        }
    }
    if !seen(visited, w, start) {
        assert(queued(q, start));
    }
}

/// Taking out a waiting beam that is not marked, marking it, and letting
/// the beams wait that the light goes on as, keeps what holds while the
/// light is followed.
pub proof fn lemma_pop_mark(
    g: Seq<Seq<MirrorType>>,
    start: Beam,
    visited: Seq<bool>,
    q: Seq<Waiting>,
    after: Seq<Waiting>,
)
    requires
        following(g, start, visited, q),
        q.len() > 0,
        after == q.subrange(1, q.len() as int) + sent(g, beam_of(q[0])),
    ensures
        following(g, start, visited.update(beam_slot(g[0].len() as int, beam_of(q[0])), true), after),
{
    let w = g[0].len() as int;
    let a = beam_of(q[0]);
    let k = beam_slot(w, a);
    let marked = visited.update(k, true);
    let r = q.subrange(1, q.len() as int);
    let news = sent(g, a);
    assert(waiting_ok(g, start, q[0]));
    lemma_beam_slot(g, a, a);
    assert forall|b: Beam| on_field(g, b.x, b.y) implies #[trigger] seen(marked, w, b) == (seen(visited, w, b)
        || b == a) by {
        lemma_beam_slot(g, b, a);
    }
    assert forall|b: Beam| queued(q, b) implies b == a || queued(after, b) by {
        let i = choose|i: int| 0 <= i < q.len() && beam_of(#[trigger] q[i]) == b;
        if i > 0 {
            assert(after[i - 1] == q[i]);
            assert(beam_of(after[i - 1]) == b);
        }
    }
    assert forall|b: Beam| beam_step(g, a, b) implies queued(after, b) by {
        let o = outs(g[a.y][a.x], a.dir);
        let first = sent_to(g, a, o.0);
        if b.dir == o.0 {
            assert(first.len() == 1);
            assert(after[r.len() as int] == first[0]);
            assert(beam_of(after[r.len() as int]) == b);
        } else {
            let d = o.1->Some_0;
            let second = sent_to(g, a, d);
            assert(second.len() == 1);
            assert(after[(r.len() + first.len()) as int] == second[0]);
            assert(beam_of(after[(r.len() + first.len()) as int]) == b);
        }
    }
    assert forall|i: int| 0 <= i < after.len() implies waiting_ok(g, start, #[trigger] after[i]) by {
        if i < r.len() {
            assert(after[i] == q[i + 1]);
            assert(waiting_ok(g, start, q[i + 1]));
        } else {
            let o = outs(g[a.y][a.x], a.dir);
            let first = sent_to(g, a, o.0);
            let e = after[i];
            let b = beam_of(e);
            if i - r.len() < first.len() {
                assert(e == first[0]);
            } else {
                let second = sent_to(g, a, o.1->Some_0);
                assert(e == second[i - r.len() - first.len()]);
            }
            assert(beam_step(g, a, b));
            lemma_reaches_step(g, start, a, b);
        }
    }
    assert forall|b: Beam| on_field(g, b.x, b.y) && #[trigger] seen(marked, w, b) implies reaches(g, start, b) by {
        if b != a {
            assert(seen(visited, w, b));
        }
    }
    assert forall|c: Beam, b: Beam| seen(marked, w, c) && #[trigger] beam_step(g, c, b) implies seen(
        marked,
        w,
        b,
    ) || queued(after, b) by {
        assert(seen(marked, w, c) == (seen(visited, w, c) || c == a));
        assert(seen(marked, w, b) == (seen(visited, w, b) || b == a));
        if c != a {
            if !seen(visited, w, b) {
                assert(queued(q, b));
            }
        }
    }
    assert(seen(marked, w, start) == (seen(visited, w, start) || start == a));
    if !seen(visited, w, start) && start != a {
        assert(queued(q, start));
    }
}

/// The directions in which light leaves a tile that it enters in direction
/// `d`.
pub fn outgoing(t: MirrorType, d: BeamDirection) -> (o: (BeamDirection, Option<BeamDirection>))
    ensures
        o == outs(t, d),
{
    match d {
        BeamDirection::Rightwards => match t {
            MirrorType::Empty | MirrorType::HorizontalSplit => (BeamDirection::Rightwards, None),
            MirrorType::VerticalSplit => (BeamDirection::Downwards, Some(BeamDirection::Upwards)),
            MirrorType::RightMirror => (BeamDirection::Upwards, None),
            MirrorType::LeftMirror => (BeamDirection::Downwards, None),
        },
        BeamDirection::Leftwards => match t {
            MirrorType::Empty | MirrorType::HorizontalSplit => (BeamDirection::Leftwards, None),
            MirrorType::VerticalSplit => (BeamDirection::Downwards, Some(BeamDirection::Upwards)),
            MirrorType::RightMirror => (BeamDirection::Downwards, None),
            MirrorType::LeftMirror => (BeamDirection::Upwards, None),
        },
        BeamDirection::Upwards => match t {
            MirrorType::Empty | MirrorType::VerticalSplit => (BeamDirection::Upwards, None),
            MirrorType::HorizontalSplit => (BeamDirection::Leftwards, Some(BeamDirection::Rightwards)),
            MirrorType::RightMirror => (BeamDirection::Rightwards, None),
            MirrorType::LeftMirror => (BeamDirection::Leftwards, None),
        },
        BeamDirection::Downwards => match t {
            MirrorType::Empty | MirrorType::VerticalSplit => (BeamDirection::Downwards, None),
            MirrorType::HorizontalSplit => (BeamDirection::Leftwards, Some(BeamDirection::Rightwards)),
            MirrorType::RightMirror => (BeamDirection::Leftwards, None),
            MirrorType::LeftMirror => (BeamDirection::Rightwards, None),
        },
    }
}

/// The position of a direction in the order up, down, left, right.
pub fn dir_index(d: BeamDirection) -> (i: usize)
    ensures
        i == ordinal(d),
{
    match d {
        BeamDirection::Upwards => 0,
        BeamDirection::Downwards => 1,
        BeamDirection::Leftwards => 2,
        BeamDirection::Rightwards => 3,
    }
}

/// Lets the beam wait that leaves the tile at column `x` of row `y` in
/// direction `d`, if the next tile in that direction lies on the field.
pub(crate) fn send(
    Ghost(g): Ghost<Seq<Seq<MirrorType>>>,
    x: usize,
    y: usize,
    d: BeamDirection,
    w: usize,
    h: usize,
    q: &mut VecDeque<Waiting>,
)
    requires
        is_field(g),
        w == g[0].len(),
        h == g.len(),
        w < isize::MAX,
        h < isize::MAX,
        on_field(g, x as int, y as int),
    ensures
        final(q)@ == old(q)@ + sent_to(g, Beam { x: x as int, y: y as int, dir: d }, d),
{
    let (ox, oy): (isize, isize) = match d {
        BeamDirection::Upwards => (0, -1),
        BeamDirection::Downwards => (0, 1),
        BeamDirection::Leftwards => (-1, 0),
        BeamDirection::Rightwards => (1, 0),
    };
    assert(ox == dx(d) && oy == dy(d));
    assert(lands_inside(x, y, ox, oy, w, h) == on_field(g, x + dx(d), y + dy(d)));
    push_boundschecked(x, y, ox, oy, w, h, d, q);
    assert(q@ =~= old(q)@ + sent_to(g, Beam { x: x as int, y: y as int, dir: d }, d));
}

/// The number of tiles that the light passes which enters the contraption
/// on the tile at column `x` of row `y` in the given direction.
pub fn get_energised_tiles(grid: &Vec<Vec<MirrorType>>, x: usize, y: usize, direction: BeamDirection) -> (n: usize)
    requires
        is_field(field(grid@)),
        on_field(field(grid@), x as int, y as int),
        grid@.len() < isize::MAX,
        grid@[0]@.len() < isize::MAX,
        grid@.len() * grid@[0]@.len() * 4 <= usize::MAX,
    ensures
        n == lit(field(grid@), Beam { x: x as int, y: y as int, dir: direction }),
{
    let ghost g = field(grid@);
    let ghost start = Beam { x: x as int, y: y as int, dir: direction };
    let h: usize = grid.len();
    let w: usize = grid[0].len();
    assert(g[0] == grid@[0]@);
    proof {
        lemma_cell_in_range(w as int, h as int, x as int, y as int);
        assert(0 <= h * w <= h * w * 4) by (nonlinear_arith)
            requires
                0 <= h,
                0 <= w,
        ;
    }
    let total: usize = h * w * 4;
    let mut visited: Vec<bool> = Vec::new();
    let mut k: usize = 0;
    while k < total
        invariant
            k <= total,
            visited@.len() == k,
            forall|i: int| 0 <= i < k ==> !visited@[i],
        decreases total - k,
    {
        visited.push(false);
        k = k + 1;
    }
    let mut queue: VecDeque<Waiting> = VecDeque::new();
    queue.push_back((x, y, direction));
    let ghost mut marked: Set<int> = Set::empty();
    proof {
        lemma_reaches_start(g, start);
        assert(beam_of(queue@[0]) == start);
        assert(queued(queue@, start));
        assert forall|b: Beam| on_field(g, b.x, b.y) implies !#[trigger] seen(visited@, w as int, b) by {
            lemma_beam_slot(g, b, b);
        }
        assert forall|a: Beam, b: Beam| seen(visited@, w as int, a) && #[trigger] beam_step(g, a, b) implies seen(
            visited@,
            w as int,
            b,
        ) || queued(queue@, b) by {
            assert(on_field(g, a.x, a.y));
        }
        assert(following(g, start, visited@, queue@));
    }
    loop
        invariant
            g == field(grid@),
            h == g.len(),
            w == g[0].len(),
            w < isize::MAX,
            h < isize::MAX,
            total == h * w * 4,
            following(g, start, visited@, queue@),
            marked.finite(),
            forall|i: int| marked.contains(i) <==> 0 <= i < total && visited@[i],
            marked.len() <= total,
        ensures
            following(g, start, visited@, queue@),
            queue@.len() == 0,
        decreases 2 * (total - marked.len()) + queue@.len(),
    {
        let ghost before = queue@;
        let e = match queue.pop_front() {
            Some(e) => e,
            None => {
                break ;
            },
        };
        let (bx, by, bd) = e;
        let ghost a = beam_of(e);
        proof {
            assert(waiting_ok(g, start, before[0]));
            lemma_beam_slot(g, a, a);
            lemma_cell_in_range(w as int, h as int, bx as int, by as int);
        }
        let slot: usize = (by * w + bx) * 4 + dir_index(bd);
        assert(slot == beam_slot(w as int, a));
        if visited[slot] {
            proof {
                lemma_pop_seen(g, start, visited@, before);
            }
            continue ;
        }
        let ghost table = visited@;
        visited.set(slot, true);
        proof {
            marked = marked.insert(slot as int);
            vstd::set_lib::lemma_int_range(0, total as int);
            assert(marked.subset_of(vstd::set_lib::set_int_range(0, total as int)));
            vstd::set_lib::lemma_len_subset(marked, vstd::set_lib::set_int_range(0, total as int));
        }
        assert(g[by as int] == grid@[by as int]@);
        let tile = grid[by][bx];
        let (first, second) = outgoing(tile, bd);
        send(Ghost(g), bx, by, first, w, h, &mut queue);
        match second {
            Some(d) => {
                send(Ghost(g), bx, by, d, w, h, &mut queue);
            },
            None => {},
        }
        proof {
            assert(queue@ =~= before.subrange(1, before.len() as int) + sent(g, a));
            lemma_pop_mark(g, start, table, before, queue@);
        }
    }
    proof {
        assert forall|a: Beam, b: Beam| seen(visited@, w as int, a) && #[trigger] beam_step(g, a, b) implies seen(
            visited@,
            w as int,
            b,
        ) by {
            if queued(queue@, b) {
                let i = choose|i: int| 0 <= i < queue@.len() && beam_of(#[trigger] queue@[i]) == b;
            }
        }
        if queued(queue@, start) {
            let i = choose|i: int| 0 <= i < queue@.len() && beam_of(#[trigger] queue@[i]) == start;
        }
        assert forall|b: Beam| on_field(g, b.x, b.y) implies #[trigger] seen(visited@, w as int, b) == reaches(
            g,
            start,
            b,
        ) by {
            if reaches(g, start, b) {
                let p = choose|p: Seq<Beam>| #[trigger] follows(g, start, p) && p.last() == b;
                lemma_closed_table(g, start, visited@, p);
            }
        }
    }
    let mut n: usize = 0;
    let mut cy: usize = 0;
    while cy < h
        invariant
            is_field(g),
            h == g.len(),
            w == g[0].len(),
            total == h * w * 4,
            visited@.len() == total,
            cy <= h,
            n == lit_in_rows(g, start, cy as int),
            n <= cy * w,
            forall|b: Beam| on_field(g, b.x, b.y) ==> #[trigger] seen(visited@, w as int, b) == reaches(g, start, b),
        decreases h - cy,
    {
        let mut row: usize = 0;
        let mut cx: usize = 0;
        while cx < w
            invariant
                is_field(g),
                h == g.len(),
                w == g[0].len(),
                total == h * w * 4,
                visited@.len() == total,
                cy < h,
                cx <= w,
                row == lit_in_row(g, start, cy as int, cx as int),
                row <= cx,
                forall|b: Beam|
                    on_field(g, b.x, b.y) ==> #[trigger] seen(visited@, w as int, b) == reaches(g, start, b),
            decreases w - cx,
        {
            proof {
                lemma_cell_in_range(w as int, h as int, cx as int, cy as int);
                let up = Beam { x: cx as int, y: cy as int, dir: BeamDirection::Upwards };
                let down = Beam { x: cx as int, y: cy as int, dir: BeamDirection::Downwards };
                let left = Beam { x: cx as int, y: cy as int, dir: BeamDirection::Leftwards };
                let right = Beam { x: cx as int, y: cy as int, dir: BeamDirection::Rightwards };
                lemma_beam_slot(g, up, up);
                assert(seen(visited@, w as int, up) == reaches(g, start, up));
                assert(seen(visited@, w as int, down) == reaches(g, start, down));
                assert(seen(visited@, w as int, left) == reaches(g, start, left));
                assert(seen(visited@, w as int, right) == reaches(g, start, right));
            }
            let base: usize = (cy * w + cx) * 4;
            if visited[base] || visited[base + 1] || visited[base + 2] || visited[base + 3] {
                row = row + 1;
            }
            cx = cx + 1;
        }
        proof {
            assert(cy * w + w == (cy + 1) * w) by (nonlinear_arith);
            assert((cy + 1) * w <= h * w) by (nonlinear_arith)
                requires
                    cy + 1 <= h,
                    0 <= w,
            ;
            assert(h * w <= h * w * 4) by (nonlinear_arith)
                requires
                    0 <= h * w,
            ;
        }
        n = n + row;
        cy = cy + 1;
    }
    n
}

/// The beam enters the contraption from outside: on a tile of an edge, in
/// the direction away from that edge.
pub open spec fn is_entry(g: Seq<Seq<MirrorType>>, b: Beam) -> bool {
    &&& on_field(g, b.x, b.y)
    &&& match b.dir {
        BeamDirection::Downwards => b.y == 0,
        BeamDirection::Upwards => b.y == g.len() - 1,
        BeamDirection::Rightwards => b.x == 0,
        BeamDirection::Leftwards => b.x == g[0].len() - 1,
    }
}

/// The greatest number of tiles that light can pass which enters the
/// contraption from outside.
pub fn brightest_entry(grid: &Vec<Vec<MirrorType>>) -> (best: usize)
    requires
        is_field(field(grid@)),
        grid@.len() < isize::MAX,
        grid@[0]@.len() < isize::MAX,
        grid@.len() * grid@[0]@.len() * 4 <= usize::MAX,
    ensures
        forall|b: Beam| is_entry(field(grid@), b) ==> #[trigger] lit(field(grid@), b) <= best,
        exists|b: Beam| is_entry(field(grid@), b) && #[trigger] lit(field(grid@), b) == best,
{
    let ghost g = field(grid@);
    let h: usize = grid.len();
    let w: usize = grid[0].len();
    assert(g[0] == grid@[0]@);
    let mut best: usize = get_energised_tiles(grid, 0, 0, BeamDirection::Downwards);
    let ghost witness = Beam { x: 0, y: 0, dir: BeamDirection::Downwards };
    let mut x: usize = 0;
    while x < w
        invariant
            g == field(grid@),
            is_field(g),
            h == g.len(),
            w == g[0].len(),
            h < isize::MAX,
            w < isize::MAX,
            h * w * 4 <= usize::MAX,
            x <= w,
            is_entry(g, witness) && lit(g, witness) == best,
            forall|b: Beam|
                is_entry(g, b) && (b.dir == BeamDirection::Downwards || b.dir == BeamDirection::Upwards) && b.x
                    < x ==> #[trigger] lit(g, b) <= best,
        decreases w - x,
    {
        let top = get_energised_tiles(grid, x, 0, BeamDirection::Downwards);
        let bottom = get_energised_tiles(grid, x, h - 1, BeamDirection::Upwards);
        let ghost down = Beam { x: x as int, y: 0, dir: BeamDirection::Downwards };
        let ghost up = Beam { x: x as int, y: h - 1, dir: BeamDirection::Upwards };
        if top > best {
            best = top;
            proof {
                witness = down;
            }
        }
        if bottom > best {
            best = bottom;
            proof {
                witness = up;
            }
        }
        assert forall|b: Beam|
            is_entry(g, b) && (b.dir == BeamDirection::Downwards || b.dir == BeamDirection::Upwards) && b.x < x
                + 1 implies #[trigger] lit(g, b) <= best by {
            if b.x == x {
                assert(b == down || b == up);
            }
        }
        x = x + 1;
    }
    let mut y: usize = 0;
    while y < h
        invariant
            g == field(grid@),
            is_field(g),
            h == g.len(),
            w == g[0].len(),
            h < isize::MAX,
            w < isize::MAX,
            h * w * 4 <= usize::MAX,
            y <= h,
            is_entry(g, witness) && lit(g, witness) == best,
            forall|b: Beam|
                is_entry(g, b) && (b.dir == BeamDirection::Downwards || b.dir == BeamDirection::Upwards)
                    ==> #[trigger] lit(g, b) <= best,
            forall|b: Beam|
                is_entry(g, b) && (b.dir == BeamDirection::Rightwards || b.dir == BeamDirection::Leftwards) && b.y
                    < y ==> #[trigger] lit(g, b) <= best,
        decreases h - y,
    {
        let left = get_energised_tiles(grid, 0, y, BeamDirection::Rightwards);
        let right = get_energised_tiles(grid, w - 1, y, BeamDirection::Leftwards);
        let ghost east = Beam { x: 0, y: y as int, dir: BeamDirection::Rightwards };
        let ghost west = Beam { x: w - 1, y: y as int, dir: BeamDirection::Leftwards };
        if left > best {
            best = left;
            proof {
                witness = east;
            }
        }
        if right > best {
            best = right;
            proof {
                witness = west;
            }
        }
        assert forall|b: Beam|
            is_entry(g, b) && (b.dir == BeamDirection::Rightwards || b.dir == BeamDirection::Leftwards) && b.y < y
                + 1 implies #[trigger] lit(g, b) <= best by {
            if b.y == y {
                assert(b == east || b == west);
            }
        }
        y = y + 1;
    }
    assert(is_entry(g, witness) && lit(g, witness) == best);
    best
}

} // verus!
