//! Text as bytes: how it falls into lines, and which bytes are digits.

use vstd::prelude::*;

verus! {

/// The line feed.
pub const LF: u8 = 10;

/// The carriage return.
pub const CR: u8 = 13;

/// The byte is one of the decimal digits `0` to `9`.
pub open spec fn is_digit(b: u8) -> bool {
    48 <= b <= 57
}

/// The position of the first line feed, or the length where there is none.
pub open spec fn first_break(s: Seq<u8>) -> int
    decreases s.len(),
{
    if s.len() == 0 || s[0] == LF {
        0
    } else {
        1 + first_break(s.drop_first())
    }
}

/// The line without a carriage return at its end.
pub open spec fn strip_cr(line: Seq<u8>) -> Seq<u8> {
    if line.len() > 0 && line.last() == CR {
        line.drop_last()
    } else {
        line
    }
}

/// The lines of a text. A line ends with a line feed, or with a carriage
/// return and a line feed; neither belongs to the line. The last line needs
/// no such end, and a text that ends with one has no empty line after it.
pub open spec fn lines_of(s: Seq<u8>) -> Seq<Seq<u8>>
    decreases s.len(),
{
    if s.len() == 0 {
        Seq::empty()
    } else {
        let k = first_break(s);
        if k < 0 || k >= s.len() {
            seq![s]
        } else {
            seq![strip_cr(s.subrange(0, k))] + lines_of(s.subrange(k + 1, s.len() as int))
        }
    }
}

/// The first line feed is where the bytes before it are none.
pub proof fn lemma_first_break_at(s: Seq<u8>, k: int)
    requires
        0 <= k <= s.len(),
        forall|j: int| 0 <= j < k ==> s[j] != LF,
        k < s.len() ==> s[k] == LF,
    ensures
        first_break(s) == k,
    decreases k,
{
    if k > 0 {
        let r = s.drop_first();
        assert forall|j: int| 0 <= j < k - 1 implies r[j] != LF by {
            assert(r[j] == s[j + 1]);
        }
        lemma_first_break_at(r, k - 1);
    }
}

/// The first line feed lies within the text or at its end, and no byte
/// before it is a line feed.
pub proof fn lemma_first_break_bounds(s: Seq<u8>)
    ensures
        0 <= first_break(s) <= s.len(),
        forall|j: int| 0 <= j < first_break(s) ==> s[j] != LF,
        first_break(s) < s.len() ==> s[first_break(s)] == LF,
    decreases s.len(),
{
    if s.len() == 0 || s[0] == LF {
    } else {
        let r = s.drop_first();
        lemma_first_break_bounds(r);
        assert forall|j: int| 0 <= j < first_break(s) implies s[j] != LF by {
            if j > 0 {
                assert(s[j] == r[j - 1]);
            }
        }
    }
}

/// The contents of a vector of byte vectors.
pub open spec fn lines_view(v: Seq<Vec<u8>>) -> Seq<Seq<u8>> {
    Seq::new(v.len(), |i: int| v[i]@)
}

/// The lines of a text.
pub fn split_lines(bytes: &[u8]) -> (lines: Vec<Vec<u8>>)
    ensures
        lines_view(lines@) == lines_of(bytes@),
{
    let n: usize = bytes.len();
    let mut lines: Vec<Vec<u8>> = Vec::new();
    let mut cur: Vec<u8> = Vec::new();
    let mut start: usize = 0;
    let mut i: usize = 0;
    assert(bytes@.subrange(0, n as int) =~= bytes@);
    assert(lines_view(lines@) + lines_of(bytes@) =~= lines_of(bytes@));
    while i < n
        invariant
            n == bytes@.len(),
            start <= i <= n,
            lines_of(bytes@) == lines_view(lines@) + lines_of(bytes@.subrange(start as int, n as int)),
            cur@ == bytes@.subrange(start as int, i as int),
            forall|j: int| start <= j < i ==> bytes@[j] != LF,
        decreases n - i,
    {
        let b = bytes[i];
        if b == LF {
            let ghost rest = bytes@.subrange(start as int, n as int);
            let ghost k = i - start;
            let ghost done = lines_view(lines@);
            proof {
                lemma_first_break_at(rest, k);
                assert(rest.subrange(0, k) =~= cur@);
                assert(rest.subrange(k + 1, rest.len() as int) =~= bytes@.subrange(i + 1, n as int));
            }
            let mut line = cur;
            if line.len() > 0 && line[line.len() - 1] == CR {
                line.pop();
            }
            assert(line@ =~= strip_cr(rest.subrange(0, k)));
            lines.push(line);
            cur = Vec::new();
            start = i + 1;
            proof {
                assert(lines_view(lines@) =~= done + seq![line@]);
                assert(lines_of(bytes@) =~= lines_view(lines@) + lines_of(
                    bytes@.subrange(start as int, n as int),
                ));
                assert(cur@ =~= bytes@.subrange(start as int, i + 1));
            }
        } else {
            cur.push(b);
            assert(cur@ =~= bytes@.subrange(start as int, i + 1));
        }
        i = i + 1;
    }
    let ghost rest = bytes@.subrange(start as int, n as int);
    if start < n {
        let ghost done = lines_view(lines@);
        proof {
            lemma_first_break_at(rest, rest.len() as int);
        }
        lines.push(cur);
        assert(lines_view(lines@) =~= done + seq![rest]);
    } else {
        assert(lines_view(lines@) + lines_of(rest) =~= lines_view(lines@));
    }
    lines
}

} // verus!
