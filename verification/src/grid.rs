//! The cost grid: built once, read-only afterwards.

use vstd::prelude::*;
use vstd::string::StringSliceAdditionalSpecFns;
use crate::route::{rectangular, width, inside, entry_cost};
use crate::text::{is_digit, lines_of, lines_view, split_lines, first_break, strip_cr, lemma_first_break_bounds};

verus! {

/// Why a grid could not be built.
#[derive(Copy, Clone, Debug, PartialEq, Eq, Structural)]
pub enum MalformedInput {
    /// Some character of a row is no decimal digit.
    NonDigit,
    /// Two rows differ in length.
    JaggedRows,
}

/// A rectangular grid of entry costs.
pub struct Grid {
    cells: Vec<Vec<usize>>,
}

impl View for Grid {
    type V = Seq<Seq<usize>>;

    closed spec fn view(&self) -> Seq<Seq<usize>> {
        Seq::new(self.cells@.len(), |i: int| self.cells@[i]@)
    }
}

/// The rows of a vector of rows.
pub open spec fn rows_view(rows: Seq<Vec<usize>>) -> Seq<Seq<usize>> {
    Seq::new(rows.len(), |i: int| rows[i]@)
}

impl Grid {
    /// The invariant of every grid that a constructor returns.
    pub open spec fn well_formed(&self) -> bool {
        rectangular(self@)
    }

    /// Builds the grid from its rows. Fails where two rows differ in length.
    pub fn construct(rows: Vec<Vec<usize>>) -> (r: Result<Grid, MalformedInput>)
        ensures
            match r {
                Ok(grid) => rectangular(rows_view(rows@)) && grid@ == rows_view(rows@) && grid.well_formed(),
                Err(e) => !rectangular(rows_view(rows@)) && e == MalformedInput::JaggedRows,
            },
    {
        let ghost g = rows_view(rows@);
        let mut i: usize = 1;
        while i < rows.len()
            invariant
                1 <= i,
                g == rows_view(rows@),
                forall|j: int| 0 <= j < i && j < g.len() ==> (#[trigger] g[j]).len() == g[0].len(),
            decreases rows.len() - i,
        {
            if rows[i].len() != rows[0].len() {
                assert(g[i as int].len() != g[0].len());
                return Err(MalformedInput::JaggedRows);
            }
            i = i + 1;
        }
        let grid = Grid { cells: rows };
        assert(grid@ =~= g);
        Ok(grid)
    }

    /// The number of rows and the number of columns.
    pub fn dimensions(&self) -> (d: (usize, usize))
        ensures
            d.0 == self@.len(),
            d.1 == width(self@),
    {
        let rows = self.cells.len();
        if rows == 0 {
            (0, 0)
        } else {
            assert(self@[0] == self.cells@[0]@);
            (rows, self.cells[0].len())
        }
    }

    /// The cost of entering the cell in row `row` and column `col`.
    pub fn cost(&self, row: usize, col: usize) -> (c: usize)
        requires
            self.well_formed(),
            inside(self@, col as int, row as int),
        ensures
            c == entry_cost(self@, col as int, row as int),
    {
        assert(self@[row as int] == self.cells@[row as int]@);
        assert(self@[0] == self.cells@[0]@);
        self.cells[row][col]
    }
}

/// The costs that a line of digits stands for.
pub open spec fn digit_row(line: Seq<u8>) -> Seq<usize> {
    Seq::new(line.len(), |i: int| (line[i] - 48) as usize)
}

/// Every byte of the line is a digit.
pub open spec fn all_digits(line: Seq<u8>) -> bool {
    forall|i: int| 0 <= i < line.len() ==> is_digit(#[trigger] line[i])
}

/// The rows that lines of digits stand for.
pub open spec fn digit_rows(lines: Seq<Seq<u8>>) -> Seq<Seq<usize>> {
    Seq::new(lines.len(), |i: int| digit_row(lines[i]))
}

/// Every line consists of digits.
pub open spec fn only_digits(lines: Seq<Seq<u8>>) -> bool {
    forall|i: int| 0 <= i < lines.len() ==> all_digits(#[trigger] lines[i])
}

/// The grid that a text stands for: one row for each line, one cost for
/// each digit. A text with a byte in a line that is no digit stands for
/// none, nor does one with lines of different lengths.
pub open spec fn parsed(bytes: Seq<u8>) -> Result<Seq<Seq<usize>>, MalformedInput> {
    let lines = lines_of(bytes);
    if !only_digits(lines) {
        Err(MalformedInput::NonDigit)
    } else if !rectangular(digit_rows(lines)) {
        Err(MalformedInput::JaggedRows)
    } else {
        Ok(digit_rows(lines))
    }
}

/// The number of bytes in all lines together.
pub open spec fn total_len(lines: Seq<Seq<u8>>) -> int
    decreases lines.len(),
{
    if lines.len() == 0 {
        0
    } else {
        lines[0].len() + total_len(lines.drop_first())
    }
}

/// The lines of a text hold no more bytes than the text.
pub proof fn lemma_lines_fit(s: Seq<u8>)
    ensures
        total_len(lines_of(s)) <= s.len(),
    decreases s.len(),
{
    if s.len() > 0 {
        let k = first_break(s);
        lemma_first_break_bounds(s);
        if k < s.len() {
            let rest = s.subrange(k + 1, s.len() as int);
            lemma_lines_fit(rest);
            let ls = lines_of(s);
            assert(ls.drop_first() =~= lines_of(rest));
            assert(ls[0] == strip_cr(s.subrange(0, k)));
            assert(ls[0].len() <= k);
            assert(total_len(ls) == ls[0].len() + total_len(ls.drop_first()));
        } else {
            let ls = lines_of(s);
            assert(ls.drop_first() =~= Seq::<Seq<u8>>::empty());
            assert(total_len(ls.drop_first()) == 0);
            assert(total_len(ls) == ls[0].len() + total_len(ls.drop_first()));
        }
    } else {
        assert(lines_of(s) =~= Seq::<Seq<u8>>::empty());
    }
}

/// Lines of one length hold their number times that length.
pub proof fn lemma_total_of_equal_lines(lines: Seq<Seq<u8>>, w: int)
    requires
        forall|i: int| 0 <= i < lines.len() ==> (#[trigger] lines[i]).len() == w,
    ensures
        total_len(lines) == lines.len() * w,
    decreases lines.len(),
{
    if lines.len() > 0 {
        let rest = lines.drop_first();
        assert forall|i: int| 0 <= i < rest.len() implies (#[trigger] rest[i]).len() == w by {
            assert(rest[i] == lines[i + 1]);
        }
        lemma_total_of_equal_lines(rest, w);
        assert(lines.len() * w == rest.len() * w + w) by (nonlinear_arith)
            requires
                lines.len() == rest.len() + 1,
        ;
    } else {
        assert(lines.len() * w == 0) by (nonlinear_arith)
            requires
                lines.len() == 0,
        ;
    }
}

/// A grid that a text stands for has no more cells than the text has bytes,
/// and no cell costs more than nine.
pub proof fn lemma_parsed_size(bytes: Seq<u8>)
    requires
        parsed(bytes) is Ok,
    ensures
        parsed(bytes)->Ok_0.len() * width(parsed(bytes)->Ok_0) <= bytes.len(),
        forall|x: int, y: int| inside(parsed(bytes)->Ok_0, x, y) ==> #[trigger] entry_cost(parsed(bytes)->Ok_0, x, y) <= 9,
{
    let lines = lines_of(bytes);
    let g = digit_rows(lines);
    lemma_lines_fit(bytes);
    if g.len() > 0 {
        let w = g[0].len() as int;
        assert forall|i: int| 0 <= i < lines.len() implies (#[trigger] lines[i]).len() == w by {
            assert(g[i].len() == g[0].len());
        }
        lemma_total_of_equal_lines(lines, w);
    } else {
        assert(g.len() * width(g) == 0) by (nonlinear_arith)
            requires
                g.len() == 0,
        ;
    }
    assert forall|x: int, y: int| inside(g, x, y) implies #[trigger] entry_cost(g, x, y) <= 9 by {
        assert(g[y].len() == g[0].len());
        assert(all_digits(lines[y]));
        assert(is_digit(lines[y][x]));
    }
}

impl Grid {
    /// Builds the grid from text: one row for each line, one cost for each
    /// digit. Fails where a line holds anything but digits, and else where two
    /// lines differ in length.
    pub fn parse(text: &str) -> (r: Result<Grid, MalformedInput>)
        ensures
            match r {
                Ok(grid) => parsed(text.spec_bytes()) == Ok::<Seq<Seq<usize>>, MalformedInput>(grid@)
                    && grid.well_formed(),
                Err(e) => parsed(text.spec_bytes()) == Err::<Seq<Seq<usize>>, MalformedInput>(e),
            },
    {
        let lines = split_lines(text.as_bytes());
        let ghost ls = lines_of(text.spec_bytes());
        let mut rows: Vec<Vec<usize>> = Vec::new();
        let mut i: usize = 0;
        while i < lines.len()
            invariant
                i <= lines@.len(),
                ls == lines_view(lines@),
                ls == lines_of(text.spec_bytes()),
                rows@.len() == i,
                forall|k: int| 0 <= k < i ==> all_digits(#[trigger] ls[k]),
                forall|k: int| 0 <= k < i ==> (#[trigger] rows@[k])@ == digit_row(ls[k]),
            decreases lines@.len() - i,
        {
            let line = &lines[i];
            let mut row: Vec<usize> = Vec::new();
            let mut j: usize = 0;
            assert(line@ == ls[i as int]);
            while j < line.len()
                invariant
                    i < ls.len(),
                    line@ == ls[i as int],
                    ls == lines_of(text.spec_bytes()),
                    j <= line@.len(),
                    row@.len() == j,
                    forall|m: int| 0 <= m < j ==> is_digit(#[trigger] line@[m]),
                    forall|m: int| 0 <= m < j ==> #[trigger] row@[m] == (line@[m] - 48) as usize,
                decreases line@.len() - j,
            {
                let b = line[j];
                if b < 48 || b > 57 {
                    proof {
                        assert(!is_digit(ls[i as int][j as int]));
                        assert(!all_digits(ls[i as int]));
                    }
                    return Err(MalformedInput::NonDigit);
                }
                row.push((b - 48) as usize);
                j = j + 1;
            }
            assert(row@ =~= digit_row(ls[i as int]));
            rows.push(row);
            i = i + 1;
        }
        assert(rows_view(rows@) =~= digit_rows(ls));
        Grid::construct(rows)
    }
}

} // verus!
