//! A map of forest and paths: the open neighbours of a tile, the tiles
//! where paths meet, and the way onwards along a path.

use vstd::prelude::*;

verus! {

/// The tile at column `x` of row `y`.
pub open spec fn tile(grid: Seq<Vec<char>>, x: int, y: int) -> char {
    grid[y]@[x]
}

/// The map has a tile, and every row is as long as the first.
pub open spec fn is_map(grid: Seq<Vec<char>>) -> bool {
    &&& grid.len() > 0
    &&& grid[0]@.len() > 0
    &&& forall|i: int| 0 <= i < grid.len() ==> (#[trigger] grid[i])@.len() == grid[0]@.len()
}

/// Column `x` of row `y` is a tile of the map.
pub open spec fn on_map(grid: Seq<Vec<char>>, x: int, y: int) -> bool {
    0 <= y < grid.len() && 0 <= x < grid[0]@.len()
}

/// The tile at column `x` of row `y`, if it lies on the map and is a path.
pub open spec fn path_at(grid: Seq<Vec<char>>, x: int, y: int) -> Seq<(usize, usize)> {
    if on_map(grid, x, y) && tile(grid, x, y) == '.' {
        seq![(x as usize, y as usize)]
    } else {
        Seq::empty()
    }
}

/// The neighbours of a tile that are paths: left, right, above, below.
pub open spec fn open_neighbours(grid: Seq<Vec<char>>, x: int, y: int) -> Seq<(usize, usize)> {
    path_at(grid, x - 1, y) + path_at(grid, x + 1, y) + path_at(grid, x, y - 1) + path_at(grid, x, y + 1)
}

/// One if the tile lies on the map and is no forest, else zero.
pub open spec fn clear_at(grid: Seq<Vec<char>>, x: int, y: int) -> int {
    if on_map(grid, x, y) && tile(grid, x, y) != '#' {
        1
    } else {
        0
    }
}

/// The number of neighbours of a tile that are no forest.
pub open spec fn clear_neighbours(grid: Seq<Vec<char>>, x: int, y: int) -> int {
    clear_at(grid, x - 1, y) + clear_at(grid, x + 1, y) + clear_at(grid, x, y - 1) + clear_at(grid, x, y + 1)
}

/// Whether more than two neighbours of the tile at `point`, given as column
/// and row, are no forest.
pub fn is_intersection(grid: &Vec<Vec<char>>, point: (usize, usize)) -> (r: bool)
    requires
        is_map(grid@),
        on_map(grid@, point.0 as int, point.1 as int),
    ensures
        r == (clear_neighbours(grid@, point.0 as int, point.1 as int) > 2),
{
    let (x, y) = point;
    let h: usize = grid.len();
    let w: usize = grid[0].len();
    let mut n: usize = 0;
    assert(grid@[y as int]@.len() == w);
    if x > 0 && grid[y][x - 1] != '#' {
        n = n + 1;
    }
    if x < w - 1 && grid[y][x + 1] != '#' {
        n = n + 1;
    }
    if y > 0 {
        assert(grid@[y - 1]@.len() == w);
        if grid[y - 1][x] != '#' {
            n = n + 1;
        }
    }
    if y < h - 1 {
        assert(grid@[y + 1]@.len() == w);
        if grid[y + 1][x] != '#' {
            n = n + 1;
        }
    }
    n > 2
}

/// The neighbours of the tile at `pos`, given as column and row, that are
/// paths: left, right, above, below.
pub fn adjacent(grid: &Vec<Vec<char>>, pos: (usize, usize)) -> (adj: Vec<(usize, usize)>)
    requires
        is_map(grid@),
        on_map(grid@, pos.0 as int, pos.1 as int),
    ensures
        adj@ == open_neighbours(grid@, pos.0 as int, pos.1 as int),
{
    let (x, y) = pos;
    let h: usize = grid.len();
    let w: usize = grid[0].len();
    let ghost g = grid@;
    let ghost xi = x as int;
    let ghost yi = y as int;
    let mut adj: Vec<(usize, usize)> = Vec::with_capacity(4);
    assert(g[yi]@.len() == w);
    if x > 0 && grid[y][x - 1] == '.' {
        adj.push((x - 1, y));
    }
    assert(adj@ =~= path_at(g, xi - 1, yi));
    if x < w - 1 && grid[y][x + 1] == '.' {
        adj.push((x + 1, y));
    }
    assert(adj@ =~= path_at(g, xi - 1, yi) + path_at(g, xi + 1, yi));
    if y > 0 {
        assert(g[yi - 1]@.len() == w);
        if grid[y - 1][x] == '.' {
            adj.push((x, y - 1));
        }
    }
    assert(adj@ =~= path_at(g, xi - 1, yi) + path_at(g, xi + 1, yi) + path_at(g, xi, yi - 1));
    if y < h - 1 {
        assert(g[yi + 1]@.len() == w);
        if grid[y + 1][x] == '.' {
            adj.push((x, y + 1));
        }
    }
    assert(adj@ =~= open_neighbours(g, xi, yi));
    adj
}

/// The position of the first item that is not `prev`, or the length where
/// every item is.
pub open spec fn first_other(s: Seq<(usize, usize)>, prev: (usize, usize)) -> int
    decreases s.len(),
{
    if s.len() == 0 || s[0] != prev {
        0
    } else {
        1 + first_other(s.drop_first(), prev)
    }
}

/// The way onwards: the first open neighbour of `pos` that is not `prev`.
pub fn next_pos(grid: &Vec<Vec<char>>, pos: (usize, usize), prev: (usize, usize)) -> (next: (usize, usize))
    requires
        is_map(grid@),
        on_map(grid@, pos.0 as int, pos.1 as int),
        first_other(open_neighbours(grid@, pos.0 as int, pos.1 as int), prev) < open_neighbours(
            grid@,
            pos.0 as int,
            pos.1 as int,
        ).len(),
    ensures
        next == open_neighbours(grid@, pos.0 as int, pos.1 as int)[first_other(
            open_neighbours(grid@, pos.0 as int, pos.1 as int),
            prev,
        )],
{
    let adj = adjacent(grid, pos);
    let mut i: usize = 0;
    assert(adj@.skip(0) =~= adj@);
    while i < adj.len()
        invariant
            i <= adj@.len(),
            adj@ == open_neighbours(grid@, pos.0 as int, pos.1 as int),
            first_other(adj@, prev) == i + first_other(adj@.skip(i as int), prev),
            first_other(adj@, prev) < adj@.len(),
        decreases adj@.len() - i,
    {
        let p = adj[i];
        let ghost rest = adj@.skip(i as int);
        assert(rest[0] == p);
        if p.0 != prev.0 || p.1 != prev.1 {
            assert(p != prev);
            assert(first_other(rest, prev) == 0);
            return p;
        }
        assert(p == prev);
        assert(rest.drop_first() =~= adj@.skip(i + 1));
        i = i + 1;
    }
    proof {
        assert(adj@.skip(i as int).len() == 0);
    }
    prev
}

} // verus!
