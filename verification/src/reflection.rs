//! Lines of reflection in a pattern of ash and rock.

use vstd::prelude::*;

verus! {

/// A line of reflection: between two columns, with `col` columns to its
/// left, or between two rows, with `row` rows above it.
#[derive(Copy, Clone, Debug, PartialEq, Eq, Structural)]
pub enum Reflection {
    Vertical { col: usize },
    Horizontal { row: usize },
}

/// The contents of a pattern given as a vector of rows.
pub open spec fn pattern(grid: Seq<Vec<bool>>) -> Seq<Seq<bool>> {
    Seq::new(grid.len(), |i: int| grid[i]@)
}

/// The pattern has a row and a column, and every row is as long as the
/// first.
pub open spec fn is_pattern(g: Seq<Seq<bool>>) -> bool {
    &&& g.len() > 0
    &&& g[0].len() > 0
    &&& forall|i: int| 0 <= i < g.len() ==> (#[trigger] g[i]).len() == g[0].len()
}

/// The rows mirror each other in the line below row `idx`, as far as both
/// sides reach.
pub open spec fn rows_mirror(g: Seq<Seq<bool>>, idx: int) -> bool {
    forall|k: int| 0 <= k <= idx && idx + 1 + k < g.len() ==> #[trigger] g[idx + 1 + k] == g[idx - k]
}

/// The columns mirror each other in the line right of column `idx`, as far
/// as both sides reach.
pub open spec fn cols_mirror(g: Seq<Seq<bool>>, idx: int) -> bool {
    forall|k: int, y: int|
        0 <= k <= idx && idx + 1 + k < g[0].len() && 0 <= y < g.len() ==> #[trigger] g[y][idx + 1 + k]
            == g[y][idx - k]
}

/// The line below row `idx` is a line of reflection other than `existing`.
pub open spec fn row_hit(g: Seq<Seq<bool>>, existing: Option<Reflection>, idx: int) -> bool {
    rows_mirror(g, idx) && existing != Some(Reflection::Horizontal { row: (idx + 1) as usize })
}

/// The line right of column `idx` is a line of reflection other than
/// `existing`.
pub open spec fn col_hit(g: Seq<Seq<bool>>, existing: Option<Reflection>, idx: int) -> bool {
    cols_mirror(g, idx) && existing != Some(Reflection::Vertical { col: (idx + 1) as usize })
}

/// Whether two rows hold the same.
pub fn rows_equal(a: &Vec<bool>, b: &Vec<bool>) -> (r: bool)
    ensures
        r == (a@ == b@),
{
    if a.len() != b.len() {
        return false;
    }
    let mut i: usize = 0;
    while i < a.len()
        invariant
            a@.len() == b@.len(),
            i <= a@.len(),
            forall|k: int| 0 <= k < i ==> a@[k] == b@[k],
        decreases a@.len() - i,
    {
        if a[i] != b[i] {
            return false;
        }
        i = i + 1;
    }
    assert(a@ =~= b@);
    true
}

/// Whether `existing` is the given line.
pub fn is_existing(existing: Option<Reflection>, line: Reflection) -> (r: bool)
    ensures
        r == (existing == Some(line)),
{
    match (existing, line) {
        (Some(Reflection::Vertical { col: a }), Reflection::Vertical { col: b }) => a == b,
        (Some(Reflection::Horizontal { row: a }), Reflection::Horizontal { row: b }) => a == b,
        _ => false,
    }
}

/// The first line of reflection of the pattern that is not `existing`: the
/// topmost between rows, or, where there is none, the leftmost between
/// columns.
pub fn find_reflection(grid: &Vec<Vec<bool>>, existing: Option<Reflection>) -> (r: Option<Reflection>)
    requires
        is_pattern(pattern(grid@)),
    ensures
        match r {
            Some(Reflection::Horizontal { row }) => {
                &&& 1 <= row < grid@.len()
                &&& row_hit(pattern(grid@), existing, row - 1)
                &&& forall|j: int| 0 <= j < row - 1 ==> !row_hit(pattern(grid@), existing, j)
            },
            Some(Reflection::Vertical { col }) => {
                &&& forall|j: int| 0 <= j < grid@.len() - 1 ==> !row_hit(pattern(grid@), existing, j)
                &&& 1 <= col < grid@[0]@.len()
                &&& col_hit(pattern(grid@), existing, col - 1)
                &&& forall|j: int| 0 <= j < col - 1 ==> !col_hit(pattern(grid@), existing, j)
            },
            None => {
                &&& forall|j: int| 0 <= j < grid@.len() - 1 ==> !row_hit(pattern(grid@), existing, j)
                &&& forall|j: int| 0 <= j < grid@[0]@.len() - 1 ==> !col_hit(pattern(grid@), existing, j)
            },
        },
{
    let ghost g = pattern(grid@);
    let h: usize = grid.len();
    let w: usize = grid[0].len();
    assert(g[0] == grid@[0]@);
    let mut idx: usize = 0;
    while idx < h - 1
        invariant
            is_pattern(g),
            g == pattern(grid@),
            h == g.len(),
            idx <= h - 1,
            forall|j: int| 0 <= j < idx ==> !row_hit(g, existing, j),
        decreases h - idx,
    {
        let mut reflection = true;
        let mut upper: usize = idx + 1;
        let mut lower: usize = idx;
        loop
            invariant_except_break
                lower + upper == 2 * idx + 1,
                idx < upper < h,
                lower <= idx,
                reflection == (forall|k: int| 0 <= k < idx - lower ==> #[trigger] g[idx + 1 + k] == g[idx - k]),
            invariant
                is_pattern(g),
                g == pattern(grid@),
                h == g.len(),
                idx < h - 1,
            ensures
                reflection == rows_mirror(g, idx as int),
            decreases lower,
        {
            let same = rows_equal(&grid[upper], &grid[lower]);
            proof {
                let k = idx - lower;
                assert(g[idx + 1 + k] == grid@[upper as int]@);
                assert(g[idx - k] == grid@[lower as int]@);
            }
            if !same {
                reflection = false;
            }
            assert(reflection == (forall|k: int|
                0 <= k < idx - lower + 1 ==> #[trigger] g[idx + 1 + k] == g[idx - k]));
            if lower == 0 || upper == h - 1 {
                break ;
            }
            lower = lower - 1;
            upper = upper + 1;
        }
        if reflection {
            let line = Reflection::Horizontal { row: idx + 1 };
            if !is_existing(existing, line) {
                return Some(line);
            }
        }
        idx = idx + 1;
    }
    let mut idx: usize = 0;
    while idx < w - 1
        invariant
            is_pattern(g),
            g == pattern(grid@),
            h == g.len(),
            w == g[0].len(),
            idx <= w - 1,
            forall|j: int| 0 <= j < h - 1 ==> !row_hit(g, existing, j),
            forall|j: int| 0 <= j < idx ==> !col_hit(g, existing, j),
        decreases w - idx,
    {
        let mut reflection = true;
        let mut upper: usize = idx + 1;
        let mut lower: usize = idx;
        loop
            invariant_except_break
                lower + upper == 2 * idx + 1,
                idx < upper < w,
                lower <= idx,
                reflection == (forall|k: int, y: int|
                    0 <= k < idx - lower && 0 <= y < h ==> #[trigger] g[y][idx + 1 + k] == g[y][idx - k]),
            invariant
                is_pattern(g),
                g == pattern(grid@),
                h == g.len(),
                w == g[0].len(),
                idx < w - 1,
            ensures
                reflection == cols_mirror(g, idx as int),
            decreases lower,
        {
            let mut y: usize = 0;
            let ghost before = reflection;
            let mut column = true;
            while y < h
                invariant
                    is_pattern(g),
                    g == pattern(grid@),
                    h == g.len(),
                    w == g[0].len(),
                    lower <= idx < upper < w,
                    y <= h,
                    column == (forall|z: int| 0 <= z < y ==> #[trigger] g[z][upper as int] == g[z][lower as int]),
                decreases h - y,
            {
                assert(g[y as int] == grid@[y as int]@);
                assert(g[y as int].len() == g[0].len());
                if grid[y][upper] != grid[y][lower] {
                    column = false;
                }
                y = y + 1;
            }
            if !column {
                reflection = false;
            }
            proof {
                let k0 = idx - lower;
                assert(upper == idx + 1 + k0 && lower == idx - k0);
                assert(reflection == (forall|k: int, y: int|
                    0 <= k < idx - lower + 1 && 0 <= y < h ==> #[trigger] g[y][idx + 1 + k] == g[y][idx - k]))
                    by {
                    if reflection {
                        assert forall|k: int, y: int| 0 <= k < idx - lower + 1 && 0 <= y < h implies #[trigger] g[y][idx
                            + 1 + k] == g[y][idx - k] by {
                            if k == k0 {
                                assert(g[y][upper as int] == g[y][lower as int]);
                            }
                        }
                    } else if before {
                        let z = choose|z: int| 0 <= z < h && g[z][upper as int] != g[z][lower as int];
                        assert(g[z][idx + 1 + k0] != g[z][idx - k0]);
                    }
                }
            }
            if lower == 0 || upper == w - 1 {
                break ;
            }
            lower = lower - 1;
            upper = upper + 1;
        }
        if reflection {
            let line = Reflection::Vertical { col: idx + 1 };
            if !is_existing(existing, line) {
                return Some(line);
            }
        }
        idx = idx + 1;
    }
    None
}

} // verus!
