//! Histories of readings and the rows of differences below them.

use vstd::prelude::*;

verus! {

/// The value lies in the range of `i32`.
pub open spec fn in_i32(v: int) -> bool {
    i32::MIN <= v <= i32::MAX
}

/// Every difference between neighbours of the row lies in the range of
/// `i32`.
pub open spec fn row_fits(s: Seq<i32>) -> bool {
    forall|i: int| 0 <= i < s.len() - 1 ==> in_i32(#[trigger] s[i + 1] - s[i])
}

/// The differences between the neighbours of a row.
pub open spec fn diff_row(s: Seq<i32>) -> Seq<i32> {
    if s.len() == 0 {
        Seq::empty()
    } else {
        Seq::new((s.len() - 1) as nat, |i: int| (s[i + 1] - s[i]) as i32)
    }
}

/// Row number `k` below a history: the history itself for nothing, else
/// the differences of the row above.
pub open spec fn nth_row(history: Seq<i32>, k: nat) -> Seq<i32>
    decreases k,
{
    if k == 0 {
        history
    } else {
        diff_row(nth_row(history, (k - 1) as nat))
    }
}

/// All items of the row are the same.
pub open spec fn constant(s: Seq<i32>) -> bool {
    forall|i: int, j: int| 0 <= i < s.len() && 0 <= j < s.len() ==> s[i] == s[j]
}

/// The differences of every row below the history lie in the range of
/// `i32`.
pub open spec fn history_fits(history: Seq<i32>) -> bool {
    forall|k: nat| k < history.len() ==> row_fits(#[trigger] nth_row(history, k))
}

/// The contents of a vector of rows.
pub open spec fn rows(v: Seq<Vec<i32>>) -> Seq<Seq<i32>> {
    Seq::new(v.len(), |i: int| v[i]@)
}

/// Every row is one item shorter than the row above, as far as there are
/// items.
pub proof fn lemma_row_len(history: Seq<i32>, k: nat)
    ensures
        nth_row(history, k).len() == if k <= history.len() {
            history.len() - k
        } else {
            0
        },
    decreases k,
{
    if k > 0 {
        lemma_row_len(history, (k - 1) as nat);
    }
}

/// The differences between the neighbours of a row, and whether they are
/// all the same.
pub fn differences(prev: &Vec<i32>) -> (r: (Vec<i32>, bool))
    requires
        row_fits(prev@),
    ensures
        r.0@ == diff_row(prev@),
        r.1 == constant(diff_row(prev@)),
{
    let mut next: Vec<i32> = Vec::new();
    let mut same = true;
    let mut i: usize = 1;
    let ghost target = diff_row(prev@);
    while i < prev.len()
        invariant
            1 <= i,
            i <= prev@.len() || prev@.len() == 0,
            prev@.len() == 0 ==> i == 1,
            row_fits(prev@),
            target == diff_row(prev@),
            next@.len() == i - 1,
            forall|k: int| 0 <= k < i - 1 ==> next@[k] == target[k],
            same == (forall|k: int| #![trigger target[k]] 0 <= k < i - 1 ==> target[k] == target[0]),
        decreases prev@.len() - i,
    {
        assert(in_i32(prev@[i as int - 1 + 1] - prev@[i as int - 1]));
        let d: i32 = prev[i] - prev[i - 1];
        assert(d == target[i as int - 1]);
        let ghost was = same;
        if next.len() > 0 {
            assert(next@[i as int - 2] == target[i as int - 2]);
            if next[next.len() - 1] != d {
                same = false;
                assert(target[i as int - 2] != target[i as int - 1]);
            }
        }
        proof {
            if same {
                assert forall|k: int| #![trigger target[k]] 0 <= k < i implies target[k] == target[0] by {
                    if k == i - 1 && k > 0 {
                        assert(target[i as int - 2] == target[0]);
                    }
                }
            } else if was {
                assert(target[i as int - 2] != target[0] || target[i as int - 1] != target[0]);
            } else {
                let k = choose|k: int| #![trigger target[k]] 0 <= k < i - 1 && target[k] != target[0];
                assert(target[k] != target[0]);
            }
        }
        next.push(d);
        i = i + 1;
    }
    assert(next@ =~= target);
    proof {
        if same {
            assert forall|a: int, b: int| 0 <= a < target.len() && 0 <= b < target.len() implies target[a]
                == target[b] by {
                assert(target[a] == target[0]);
                assert(target[b] == target[0]);
            }
        }
    }
    (next, same)
}

/// The rows of differences below a history, the history first, down to the
/// first row of differences whose items are all the same.
pub fn process_diffs(history: Vec<i32>) -> (diffs: Vec<Vec<i32>>)
    requires
        history@.len() >= 1,
        history_fits(history@),
    ensures
        diffs@.len() >= 2,
        forall|k: int| 0 <= k < diffs@.len() ==> (#[trigger] diffs@[k])@ == nth_row(history@, k as nat),
        constant(diffs@[diffs@.len() - 1]@),
        forall|k: int| 1 <= k < diffs@.len() - 1 ==> !constant((#[trigger] diffs@[k])@),
{
    let ghost h = history@;
    let mut diffs: Vec<Vec<i32>> = Vec::new();
    diffs.push(history);
    loop
        invariant_except_break
            forall|k: int| 1 <= k < diffs@.len() ==> !constant((#[trigger] diffs@[k])@),
            diffs@.len() <= h.len(),
        invariant
            h.len() >= 1,
            history_fits(h),
            1 <= diffs@.len(),
            forall|k: int| 0 <= k < diffs@.len() ==> (#[trigger] diffs@[k])@ == nth_row(h, k as nat),
        ensures
            diffs@.len() >= 2,
            constant(diffs@[diffs@.len() - 1]@),
            forall|k: int| 1 <= k < diffs@.len() - 1 ==> !constant((#[trigger] diffs@[k])@),
        decreases h.len() - diffs@.len(),
    {
        let n: usize = diffs.len();
        let ghost before = diffs@;
        proof {
            assert(row_fits(nth_row(h, (n - 1) as nat)));
            lemma_row_len(h, (n - 1) as nat);
            lemma_row_len(h, n as nat);
        }
        let (next, same) = differences(&diffs[n - 1]);
        assert(next@ == nth_row(h, n as nat));
        diffs.push(next);
        assert forall|k: int| 0 <= k < diffs@.len() implies (#[trigger] diffs@[k])@ == nth_row(h, k as nat) by {
            if k < n {
                assert(diffs@[k] == before[k]);
            }
        }
        assert forall|k: int| 1 <= k < diffs@.len() - 1 implies !constant((#[trigger] diffs@[k])@) by {
            assert(diffs@[k] == before[k]);
        }
        if same {
            break ;
        }
        proof {
            if n + 1 > h.len() {
                assert(next@.len() == 0);
                assert(constant(next@));
            }
        }
    }
    diffs
}

/// The last item of a row, or nothing where the row is empty.
pub open spec fn last_of(s: Seq<i32>) -> int {
    if s.len() > 0 {
        s.last() as int
    } else {
        0
    }
}

/// The first item of a row, or nothing where the row is empty.
pub open spec fn first_of(s: Seq<i32>) -> int {
    if s.len() > 0 {
        s[0] as int
    } else {
        0
    }
}

/// The next value of row `k` below a history whose rows end with row
/// `depth`: the last item of the row and the next value of the row below;
/// for the last row its last item.
pub open spec fn next_in(history: Seq<i32>, k: nat, depth: nat) -> int
    decreases depth - k,
{
    if k >= depth {
        last_of(nth_row(history, k))
    } else {
        last_of(nth_row(history, k)) + next_in(history, k + 1, depth)
    }
}

/// The value before row `k` below a history whose rows end with row
/// `depth`: the first item of the row less the value before the row below;
/// for the last row its first item.
pub open spec fn previous_in(history: Seq<i32>, k: nat, depth: nat) -> int
    decreases depth - k,
{
    if k >= depth {
        first_of(nth_row(history, k))
    } else {
        first_of(nth_row(history, k)) - previous_in(history, k + 1, depth)
    }
}

/// Row `depth` is the first row of differences whose items are all the
/// same, and it holds an item.
pub open spec fn is_depth(history: Seq<i32>, depth: nat) -> bool {
    &&& depth >= 1
    &&& constant(nth_row(history, depth))
    &&& nth_row(history, depth).len() > 0
    &&& forall|k: nat| 1 <= k < depth ==> !constant(#[trigger] nth_row(history, k))
}

/// The next value of every row, and the value before it, lie in the range
/// of `i32`.
pub open spec fn extrapolation_fits(history: Seq<i32>, depth: nat) -> bool {
    forall|k: nat|
        k <= depth ==> in_i32(#[trigger] next_in(history, k, depth)) && in_i32(previous_in(history, k, depth))
}

/// The value that follows a history, and the value that comes before it:
/// of the rows of differences down to the first whose items are all the same
/// the sum of the last items, and the first items subtracted in turn.
pub fn extrapolate(history: Vec<i32>) -> (r: (i32, i32))
    requires
        history@.len() >= 1,
        history_fits(history@),
        exists|depth: nat| is_depth(history@, depth) && extrapolation_fits(history@, depth),
    ensures
        exists|depth: nat|
            is_depth(history@, depth) && r.0 == next_in(history@, 0, depth) && r.1 == previous_in(
                history@,
                0,
                depth,
            ),
{
    let ghost h = history@;
    let ghost given = choose|depth: nat| is_depth(h, depth) && extrapolation_fits(h, depth);
    let diffs = process_diffs(history);
    let n: usize = diffs.len();
    let ghost depth = (n - 1) as nat;
    proof {
        assert(diffs@[n - 1]@ == nth_row(h, depth));
        if given < depth {
            assert(!constant(diffs@[given as int]@));
            assert(diffs@[given as int]@ == nth_row(h, given));
        } else if depth < given {
            assert(!constant(nth_row(h, depth)));
        }
        assert(given == depth);
        assert forall|k: nat| 1 <= k < depth implies !constant(#[trigger] nth_row(h, k)) by {
            assert(!constant(diffs@[k as int]@));
        }
    }
    let bottom = &diffs[n - 1];
    let mut next: i32 = bottom[bottom.len() - 1];
    let mut previous: i32 = bottom[0];
    let mut i: usize = n - 1;
    while i > 0
        invariant
            n == diffs@.len(),
            i < n,
            depth == n - 1,
            forall|k: int| 0 <= k < n ==> (#[trigger] diffs@[k])@ == nth_row(h, k as nat),
            extrapolation_fits(h, depth),
            next == next_in(h, i as nat, depth),
            previous == previous_in(h, i as nat, depth),
            forall|k: int| 0 <= k < n ==> (#[trigger] diffs@[k])@.len() > 0,
        decreases i,
    {
        i = i - 1;
        let row = &diffs[i];
        proof {
            assert(row@ == nth_row(h, i as nat));
            assert(in_i32(next_in(h, i as nat, depth)) && in_i32(previous_in(h, i as nat, depth)));
        }
        next = row[row.len() - 1] + next;
        previous = row[0] - previous;
    }
    (next, previous)
}

} // verus!
