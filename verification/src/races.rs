//! Boat races: how far a boat gets when its button is held for a while, and
//! the search for the holding times that beat a record.

use vstd::prelude::*;

verus! {

/// The value lies in the range of `i64`.
pub open spec fn in_i64(v: int) -> bool {
    i64::MIN <= v <= i64::MAX
}

/// The distance that a boat travels in a race of `time` when its button is
/// held for `t`.
pub open spec fn travelled(time: int, t: int) -> int {
    t * (time - t)
}

/// Holding the button for `t` beats the record `distance`.
pub open spec fn wins(time: int, distance: int, t: int) -> bool {
    travelled(time, t) > distance
}

/// Half of a sum, rounded towards zero.
pub open spec fn midpoint(a: int, b: int) -> int {
    if a + b >= 0 {
        (a + b) / 2
    } else {
        -((-(a + b)) / 2)
    }
}

/// The time that halving the span from `from_t` to `to_t` ends at: the half
/// with the change between losing and winning is kept, with the winning
/// times above where `lb` is set and below where it is not. Of a span of one
/// step the upper end is given where `lb` is set, else the lower.
pub open spec fn bisect(time: int, distance: int, from_t: int, to_t: int, lb: bool) -> int
    decreases to_t - from_t,
{
    if to_t - from_t <= 1 {
        if lb {
            to_t
        } else {
            from_t
        }
    } else {
        let guess = midpoint(from_t, to_t);
        if wins(time, distance, guess) == lb {
            bisect(time, distance, from_t, guess, lb)
        } else {
            bisect(time, distance, guess, to_t, lb)
        }
    }
}

/// The time left after holding for `t`, and the distance travelled then,
/// lie in the range of `i64`.
pub open spec fn hold_fits(time: int, t: int) -> bool {
    in_i64(time - t) && in_i64(travelled(time, t))
}

/// Every number that the search computes on the span lies in the range of
/// `i64`.
pub open spec fn span_fits(time: int, from_t: int, to_t: int) -> bool {
    &&& in_i64(to_t - from_t)
    &&& in_i64(from_t + from_t)
    &&& in_i64(to_t + to_t)
    &&& forall|t: int| from_t <= t <= to_t ==> #[trigger] hold_fits(time, t)
}

/// The midpoint of a span of more than one step lies strictly inside it.
pub proof fn lemma_midpoint_inside(a: int, b: int)
    requires
        b - a > 1,
    ensures
        a < midpoint(a, b) < b,
{
}

/// Where the lower end of the span loses and the upper end wins, the search
/// for the lower bound ends at a winning time whose predecessor loses.
pub proof fn lemma_bisect_lower(time: int, distance: int, from_t: int, to_t: int)
    requires
        from_t < to_t,
        !wins(time, distance, from_t),
        wins(time, distance, to_t),
    ensures
        from_t < bisect(time, distance, from_t, to_t, true) <= to_t,
        wins(time, distance, bisect(time, distance, from_t, to_t, true)),
        !wins(time, distance, bisect(time, distance, from_t, to_t, true) - 1),
    decreases to_t - from_t,
{
    if to_t - from_t > 1 {
        let guess = midpoint(from_t, to_t);
        lemma_midpoint_inside(from_t, to_t);
        if wins(time, distance, guess) {
            lemma_bisect_lower(time, distance, from_t, guess);
        } else {
            lemma_bisect_lower(time, distance, guess, to_t);
        }
    }
}

/// Where the lower end of the span wins and the upper end loses, the search
/// for the upper bound ends at a winning time whose successor loses.
pub proof fn lemma_bisect_upper(time: int, distance: int, from_t: int, to_t: int)
    requires
        from_t < to_t,
        wins(time, distance, from_t),
        !wins(time, distance, to_t),
    ensures
        from_t <= bisect(time, distance, from_t, to_t, false) < to_t,
        wins(time, distance, bisect(time, distance, from_t, to_t, false)),
        !wins(time, distance, bisect(time, distance, from_t, to_t, false) + 1),
    decreases to_t - from_t,
{
    if to_t - from_t > 1 {
        let guess = midpoint(from_t, to_t);
        lemma_midpoint_inside(from_t, to_t);
        if wins(time, distance, guess) {
            lemma_bisect_upper(time, distance, guess, to_t);
        } else {
            lemma_bisect_upper(time, distance, from_t, guess);
        }
    }
}

/// Searches the span from `from_t` to `to_t` by halving for the time where
/// losing turns into winning (`lb` set) or winning into losing. Where the
/// span starts with a losing and ends with a winning time, the search with
/// `lb` set ends at a winning time right after a losing one; where it starts
/// with a winning and ends with a losing time, the search without `lb` ends
/// at a winning time right before a losing one.
pub fn binsearch(time: i64, distance: i64, from_t: i64, to_t: i64, lb: bool) -> (r: i64)
    requires
        span_fits(time as int, from_t as int, to_t as int),
    ensures
        r == bisect(time as int, distance as int, from_t as int, to_t as int, lb),
        lb && from_t < to_t && !wins(time as int, distance as int, from_t as int) && wins(
            time as int,
            distance as int,
            to_t as int,
        ) ==> from_t < r <= to_t && wins(time as int, distance as int, r as int) && !wins(
            time as int,
            distance as int,
            r - 1,
        ),
        !lb && from_t < to_t && wins(time as int, distance as int, from_t as int) && !wins(
            time as int,
            distance as int,
            to_t as int,
        ) ==> from_t <= r < to_t && wins(time as int, distance as int, r as int) && !wins(
            time as int,
            distance as int,
            r + 1,
        ),
    decreases to_t - from_t,
{
    proof {
        if from_t < to_t {
            if !wins(time as int, distance as int, from_t as int) && wins(time as int, distance as int, to_t as int) {
                lemma_bisect_lower(time as int, distance as int, from_t as int, to_t as int);
            }
            if wins(time as int, distance as int, from_t as int) && !wins(time as int, distance as int, to_t as int) {
                lemma_bisect_upper(time as int, distance as int, from_t as int, to_t as int);
            }
        }
    }
    if to_t - from_t <= 1 {
        return if lb {
            to_t
        } else {
            from_t
        };
    }
    let sum = from_t + to_t;
    let guess = sum / 2;
    proof {
        lemma_midpoint_inside(from_t as int, to_t as int);
        assert(guess == midpoint(from_t as int, to_t as int));
        assert(hold_fits(time as int, guess as int));
        assert(span_fits(time as int, from_t as int, guess as int));
        assert(span_fits(time as int, guess as int, to_t as int));
    }
    let d = guess * (time - guess);
    if d > distance {
        if lb {
            binsearch(time, distance, from_t, guess, lb)
        } else {
            binsearch(time, distance, guess, to_t, lb)
        }
    } else {
        if lb {
            binsearch(time, distance, guess, to_t, lb)
        } else {
            binsearch(time, distance, from_t, guess, lb)
        }
    }
}

/// The number of holding times from 1 up to but not including `n` that
/// beat the record.
pub open spec fn ways(time: int, distance: int, n: int) -> int
    decreases n,
{
    if n <= 1 {
        0
    } else {
        ways(time, distance, n - 1) + if wins(time, distance, n - 1) {
            1int
        } else {
            0int
        }
    }
}

/// The number of whole holding times, shorter than the race and longer
/// than nothing, that beat the record.
pub fn ways_to_win(time: i32, distance: i32) -> (n: i32)
    requires
        time * time <= i32::MAX,
    ensures
        n == ways(time as int, distance as int, time as int),
{
    let mut n: i32 = 0;
    let mut t: i32 = 1;
    while t < time
        invariant
            1 <= t,
            t <= time || (time < 1 && t == 1),
            time * time <= i32::MAX,
            0 <= n < t,
            n == ways(time as int, distance as int, t as int),
        decreases time - t,
    {
        assert(0 <= t * (time - t) <= time * time) by (nonlinear_arith)
            requires
                1 <= t < time,
        ;
        let d = t * (time - t);
        if d > distance {
            n = n + 1;
        }
        t = t + 1;
    }
    assert(time <= 1 ==> ways(time as int, distance as int, time as int) == 0 && n == 0);
    n
}

/// The number of holding times from the first that beats the record, found
/// by halving the first half of the race, to the last, found by halving the
/// second half.
pub fn winning_span(time: i64, distance: i64) -> (n: i64)
    requires
        0 <= time,
        time * time <= i64::MAX,
    ensures
        n == bisect(time as int, distance as int, midpoint(0, time as int), time as int, false) - bisect(
            time as int,
            distance as int,
            0,
            midpoint(0, time as int),
            true,
        ) + 1,
{
    let middle = time / 2;
    proof {
        assert forall|t: int| 0 <= t <= time implies #[trigger] hold_fits(time as int, t) by {
            assert(0 <= t * (time - t) <= time * time) by (nonlinear_arith)
                requires
                    0 <= t <= time,
            ;
        }
        assert(time + time <= time * time || time <= 2) by (nonlinear_arith)
            requires
                0 <= time,
        ;
        lemma_bisect_within(time as int, distance as int, 0, middle as int, true);
        lemma_bisect_within(time as int, distance as int, middle as int, time as int, false);
    }
    let lb = binsearch(time, distance, 0, middle, true);
    let ub = binsearch(time, distance, middle, time, false);
    ub - lb + 1
}

/// The search ends within the span.
pub proof fn lemma_bisect_within(time: int, distance: int, from_t: int, to_t: int, lb: bool)
    requires
        from_t <= to_t,
    ensures
        from_t <= bisect(time, distance, from_t, to_t, lb) <= to_t,
    decreases to_t - from_t,
{
    if to_t - from_t > 1 {
        let guess = midpoint(from_t, to_t);
        lemma_midpoint_inside(from_t, to_t);
        if wins(time, distance, guess) == lb {
            lemma_bisect_within(time, distance, from_t, guess, lb);
        } else {
            lemma_bisect_within(time, distance, guess, to_t, lb);
        }
    }
}

} // verus!
