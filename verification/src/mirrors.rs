//! A contraption of mirrors and splitters: its tiles, and the beams that
//! wait to be followed.

use vstd::prelude::*;
use vstd::string::StringSliceAdditionalSpecFns;
use std::collections::VecDeque;
use crate::text::{lines_of, lines_view, split_lines};

verus! {

/// What stands on a tile.
#[derive(Copy, Clone, Debug, PartialEq, Eq, Structural, Hash)]
pub enum MirrorType {
    Empty,
    VerticalSplit,
    HorizontalSplit,
    RightMirror,
    LeftMirror,
}

/// The direction in which a beam travels.
#[derive(Copy, Clone, Debug, PartialEq, Eq, Structural, Hash)]
pub enum BeamDirection {
    Upwards,
    Downwards,
    Leftwards,
    Rightwards,
}

/// The byte stands for a tile: `.`, `|`, `-`, `/` or `\`.
pub open spec fn is_tile(b: u8) -> bool {
    b == 46 || b == 124 || b == 45 || b == 47 || b == 92
}

/// The tile that a byte stands for.
pub open spec fn tile_of(b: u8) -> MirrorType {
    if b == 124 {
        MirrorType::VerticalSplit
    } else if b == 45 {
        MirrorType::HorizontalSplit
    } else if b == 47 {
        MirrorType::RightMirror
    } else if b == 92 {
        MirrorType::LeftMirror
    } else {
        MirrorType::Empty
    }
}

/// Every byte of every line stands for a tile.
pub open spec fn only_tiles(lines: Seq<Seq<u8>>) -> bool {
    forall|i: int, j: int| 0 <= i < lines.len() && 0 <= j < lines[i].len() ==> is_tile(#[trigger] lines[i][j])
}

/// The rows of tiles that lines of text stand for.
pub open spec fn tiles_of(lines: Seq<Seq<u8>>) -> Seq<Seq<MirrorType>> {
    Seq::new(lines.len(), |i: int| Seq::new(lines[i].len(), |j: int| tile_of(lines[i][j])))
}

/// The contents of a vector of rows of tiles.
pub open spec fn tiles_view(rows: Seq<Vec<MirrorType>>) -> Seq<Seq<MirrorType>> {
    Seq::new(rows.len(), |i: int| rows[i]@)
}

/// The contraption that a text stands for: one row for each line, one tile
/// for each character.
pub fn parse_input(input: &str) -> (rows: Vec<Vec<MirrorType>>)
    requires
        only_tiles(lines_of(input.spec_bytes())),
    ensures
        tiles_view(rows@) == tiles_of(lines_of(input.spec_bytes())),
{
    let lines = split_lines(input.as_bytes());
    let ghost ls = lines_of(input.spec_bytes());
    let mut rows: Vec<Vec<MirrorType>> = Vec::new();
    let mut i: usize = 0;
    while i < lines.len()
        invariant
            i <= lines@.len(),
            ls == lines_view(lines@),
            only_tiles(ls),
            rows@.len() == i,
            forall|k: int| 0 <= k < i ==> (#[trigger] rows@[k])@ == tiles_of(ls)[k],
        decreases lines@.len() - i,
    {
        let line = &lines[i];
        let mut row: Vec<MirrorType> = Vec::new();
        let mut j: usize = 0;
        assert(line@ == ls[i as int]);
        while j < line.len()
            invariant
                i < ls.len(),
                line@ == ls[i as int],
                only_tiles(ls),
                j <= line@.len(),
                row@.len() == j,
                forall|m: int| 0 <= m < j ==> #[trigger] row@[m] == tile_of(line@[m]),
            decreases line@.len() - j,
        {
            let b = line[j];
            assert(is_tile(ls[i as int][j as int]));
            let t = if b == 46 {
                MirrorType::Empty
            } else if b == 124 {
                MirrorType::VerticalSplit
            } else if b == 45 {
                MirrorType::HorizontalSplit
            } else if b == 47 {
                MirrorType::RightMirror
            } else {
                MirrorType::LeftMirror
            };
            row.push(t);
            j = j + 1;
        }
        assert(row@ =~= tiles_of(ls)[i as int]);
        rows.push(row);
        i = i + 1;
    }
    assert(tiles_view(rows@) =~= tiles_of(ls));
    rows
}

/// Column `x + ox` of row `y + oy` lies in a field of `w` columns and `h` rows.
pub open spec fn lands_inside(x: usize, y: usize, ox: isize, oy: isize, w: usize, h: usize) -> bool {
    0 <= x + ox < w && 0 <= y + oy < h
}

/// Appends a beam in direction `dir` at the tile `ox` columns and `oy` rows
/// from (`x`, `y`) to the beams that wait, if that tile lies in the field.
pub fn push_boundschecked(
    x: usize,
    y: usize,
    ox: isize,
    oy: isize,
    w: usize,
    h: usize,
    dir: BeamDirection,
    q: &mut VecDeque<(usize, usize, BeamDirection)>,
)
    requires
        x <= isize::MAX,
        y <= isize::MAX,
        w <= isize::MAX,
        h <= isize::MAX,
        isize::MIN <= x + ox <= isize::MAX,
        isize::MIN <= y + oy <= isize::MAX,
    ensures
        final(q)@ == if lands_inside(x, y, ox, oy, w, h) {
            old(q)@.push(((x + ox) as usize, (y + oy) as usize, dir))
        } else {
            old(q)@
        },
{
    let (xi, yi) = (x as isize, y as isize);
    if xi + ox < 0 || yi + oy < 0 || xi + ox >= w as isize || yi + oy >= h as isize {
        return ;
    }
    q.push_back(((xi + ox) as usize, (yi + oy) as usize, dir));
}

} // verus!
