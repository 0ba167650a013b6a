//! A field of pipe tiles: which tiles open towards which side, and which
//! neighbours of a tile are joined to it.

use vstd::prelude::*;

verus! {

/// The tile opens downwards.
pub open spec fn opens_down(c: char) -> bool {
    c == '|' || c == '7' || c == 'F' || c == 'S'
}

/// The tile opens upwards.
pub open spec fn opens_up(c: char) -> bool {
    c == '|' || c == 'L' || c == 'J' || c == 'S'
}

/// The tile opens to the left.
pub open spec fn opens_left(c: char) -> bool {
    c == '-' || c == 'J' || c == '7' || c == 'S'
}

/// The tile opens to the right.
pub open spec fn opens_right(c: char) -> bool {
    c == '-' || c == 'L' || c == 'F' || c == 'S'
}

/// Whether the tile opens downwards.
pub fn connects_down(c: char) -> (r: bool)
    ensures
        r == opens_down(c),
{
    c == '|' || c == '7' || c == 'F' || c == 'S'
}

/// Whether the tile opens upwards.
pub fn connects_up(c: char) -> (r: bool)
    ensures
        r == opens_up(c),
{
    c == '|' || c == 'L' || c == 'J' || c == 'S'
}

/// Whether the tile opens to the left.
pub fn connects_left(c: char) -> (r: bool)
    ensures
        r == opens_left(c),
{
    c == '-' || c == 'J' || c == '7' || c == 'S'
}

/// Whether the tile opens to the right.
pub fn connects_right(c: char) -> (r: bool)
    ensures
        r == opens_right(c),
{
    c == '-' || c == 'L' || c == 'F' || c == 'S'
}

/// The tile at column `x` of row `y`.
pub open spec fn tile(grid: Seq<Vec<char>>, x: int, y: int) -> char {
    grid[y]@[x]
}

/// Column `x` of row `y` is a tile of the field.
pub open spec fn has_tile(grid: Seq<Vec<char>>, x: int, y: int) -> bool {
    0 <= y < grid.len() && 0 <= x < grid[y]@.len()
}

/// The tile at column `x` of row `y` is the start, and no tile before it in
/// reading order is.
pub open spec fn first_start(grid: Seq<Vec<char>>, x: int, y: int) -> bool {
    &&& has_tile(grid, x, y)
    &&& tile(grid, x, y) == 'S'
    &&& forall|a: int, b: int|
        has_tile(grid, a, b) && (b < y || (b == y && a < x)) ==> #[trigger] tile(grid, a, b) != 'S'
}

/// The position of the start tile, as column and row: the first in reading
/// order where there are several.
pub fn find_start(grid: &Vec<Vec<char>>) -> (pos: (usize, usize))
    requires
        exists|x: int, y: int| has_tile(grid@, x, y) && #[trigger] tile(grid@, x, y) == 'S',
    ensures
        first_start(grid@, pos.0 as int, pos.1 as int),
{
    let mut y: usize = 0;
    while y < grid.len()
        invariant
            y <= grid@.len(),
            forall|a: int, b: int| has_tile(grid@, a, b) && b < y ==> #[trigger] tile(grid@, a, b) != 'S',
        decreases grid@.len() - y,
    {
        let mut x: usize = 0;
        while x < grid[y].len()
            invariant
                y < grid@.len(),
                x <= grid@[y as int]@.len(),
                forall|a: int, b: int| has_tile(grid@, a, b) && b < y ==> #[trigger] tile(grid@, a, b) != 'S',
                forall|a: int| 0 <= a < x ==> #[trigger] tile(grid@, a, y as int) != 'S',
            decreases grid@[y as int]@.len() - x,
        {
            if grid[y][x] == 'S' {
                return (x, y);
            }
            x = x + 1;
        }
        y = y + 1;
    }
    proof {
        let (a, b) = choose|a: int, b: int| has_tile(grid@, a, b) && #[trigger] tile(grid@, a, b) == 'S';
        assert(tile(grid@, a, b) != 'S');
    }
    (0, 0)
}

/// The neighbour above, if the tile opens upwards and the neighbour opens
/// downwards.
pub open spec fn joined_up(grid: Seq<Vec<char>>, x: int, y: int) -> Seq<(usize, usize)> {
    if opens_up(tile(grid, x, y)) && opens_down(tile(grid, x, y - 1)) {
        seq![(x as usize, (y - 1) as usize)]
    } else {
        Seq::empty()
    }
}

/// The neighbour below, if the tile opens downwards and the neighbour opens
/// upwards.
pub open spec fn joined_down(grid: Seq<Vec<char>>, x: int, y: int) -> Seq<(usize, usize)> {
    if opens_down(tile(grid, x, y)) && opens_up(tile(grid, x, y + 1)) {
        seq![(x as usize, (y + 1) as usize)]
    } else {
        Seq::empty()
    }
}

/// The neighbour to the right, if the tile opens to the right and the
/// neighbour opens to the left.
pub open spec fn joined_right(grid: Seq<Vec<char>>, x: int, y: int) -> Seq<(usize, usize)> {
    if opens_right(tile(grid, x, y)) && opens_left(tile(grid, x + 1, y)) {
        seq![((x + 1) as usize, y as usize)]
    } else {
        Seq::empty()
    }
}

/// The neighbour to the left, if the tile opens to the left and the
/// neighbour opens to the right.
pub open spec fn joined_left(grid: Seq<Vec<char>>, x: int, y: int) -> Seq<(usize, usize)> {
    if opens_left(tile(grid, x, y)) && opens_right(tile(grid, x - 1, y)) {
        seq![((x - 1) as usize, y as usize)]
    } else {
        Seq::empty()
    }
}

/// The neighbours that the tile is joined to: above, below, right, left.
pub open spec fn joined(grid: Seq<Vec<char>>, x: int, y: int) -> Seq<(usize, usize)> {
    joined_up(grid, x, y) + joined_down(grid, x, y) + joined_right(grid, x, y) + joined_left(grid, x, y)
}

/// Every side that the tile opens to has a tile of the field.
pub open spec fn sides_in_field(grid: Seq<Vec<char>>, x: int, y: int) -> bool {
    &&& has_tile(grid, x, y)
    &&& opens_up(tile(grid, x, y)) ==> has_tile(grid, x, y - 1)
    &&& opens_down(tile(grid, x, y)) ==> has_tile(grid, x, y + 1)
    &&& opens_right(tile(grid, x, y)) ==> has_tile(grid, x + 1, y)
    &&& opens_left(tile(grid, x, y)) ==> has_tile(grid, x - 1, y)
}

/// The neighbours of the tile at `pos`, given as column and row, that are
/// joined to it, in the order above, below, right, left.
pub fn get_adjacent_pipes(grid: &Vec<Vec<char>>, pos: (usize, usize)) -> (v: Vec<(usize, usize)>)
    requires
        sides_in_field(grid@, pos.0 as int, pos.1 as int),
    ensures
        v@ == joined(grid@, pos.0 as int, pos.1 as int),
{
    let mut v: Vec<(usize, usize)> = Vec::with_capacity(2);
    let (x, y) = pos;
    let c = grid[y][x];
    let rows: usize = grid.len();
    let cols: usize = grid[y].len();
    let ghost g = grid@;
    let ghost xi = x as int;
    let ghost yi = y as int;
    if connects_up(c) && connects_down(grid[y - 1][x]) {
        v.push((x, y - 1));
    }
    assert(v@ =~= joined_up(g, xi, yi));
    if connects_down(c) && connects_up(grid[y + 1][x]) {
        v.push((x, y + 1));
    }
    assert(v@ =~= joined_up(g, xi, yi) + joined_down(g, xi, yi));
    if connects_right(c) && connects_left(grid[y][x + 1]) {
        v.push((x + 1, y));
    }
    assert(v@ =~= joined_up(g, xi, yi) + joined_down(g, xi, yi) + joined_right(g, xi, yi));
    if connects_left(c) && connects_right(grid[y][x - 1]) {
        v.push((x - 1, y));
    }
    assert(v@ =~= joined(g, xi, yi));
    v
}

} // verus!
