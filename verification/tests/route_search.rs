use aoc23::grid::{Grid, MalformedInput};
use aoc23::heading::{can_move, Direction};
use aoc23::solver::{part1, part2, searchable, solve, straight_line_restricted_dijkstra, SolveError};
use aoc23::states::{successor, successors, Step};

const EXAMPLE: &str = "2413432311323\n3215453535623\n3255245654254\n3446585845452\n4546657867536\n1438598798454\n4457876987766\n3637877979653\n4654967986887\n4564679986453\n1224686865563\n2546548887735\n4322674655533\n";

const LANES: &str = "111111111111\n999999999991\n999999999991\n999999999991\n999999999991\n";

fn rows_of(text: &str) -> Vec<Vec<usize>> {
    text.lines()
        .map(|l| l.bytes().map(|b| (b - b'0') as usize).collect())
        .collect()
}

fn limits(ultra: bool) -> (usize, usize) {
    if ultra {
        (4, 10)
    } else {
        (0, 3)
    }
}

fn dir_index(d: Direction) -> usize {
    match d {
        Direction::Up => 0,
        Direction::Down => 1,
        Direction::Left => 2,
        Direction::Right => 3,
    }
}

const DIRS: [Direction; 4] = [Direction::Up, Direction::Down, Direction::Left, Direction::Right];

fn moved(pos: (usize, usize), d: Direction, w: usize, h: usize) -> Option<(usize, usize)> {
    let (x, y) = pos;
    match d {
        Direction::Up if y > 0 => Some((x, y - 1)),
        Direction::Down if y + 1 < h => Some((x, y + 1)),
        Direction::Left if x > 0 => Some((x - 1, y)),
        Direction::Right if x + 1 < w => Some((x + 1, y)),
        _ => None,
    }
}

/// Relaxes every edge of the unrolled state graph until nothing changes.
fn brute_force(rows: &[Vec<usize>], start: (usize, usize), goal: (usize, usize), ultra: bool) -> Option<usize> {
    let h = rows.len();
    let w = rows[0].len();
    let (min_run, max_run) = limits(ultra);
    let idx = |x: usize, y: usize, d: usize, r: usize| ((y * w + x) * 4 + d) * 11 + r;
    let mut best = vec![usize::MAX; w * h * 44];
    for d in 0..4 {
        best[idx(start.0, start.1, d, 0)] = 0;
    }
    let mut changed = true;
    while changed {
        changed = false;
        for y in 0..h {
            for x in 0..w {
                for d in DIRS {
                    for r in 0..=max_run {
                        let here = best[idx(x, y, dir_index(d), r)];
                        if here == usize::MAX {
                            continue;
                        }
                        for nd in DIRS {
                            let back = match d {
                                Direction::Up => Direction::Down,
                                Direction::Down => Direction::Up,
                                Direction::Left => Direction::Right,
                                Direction::Right => Direction::Left,
                            };
                            if nd == back {
                                continue;
                            }
                            let nr = if nd == d {
                                if r >= max_run {
                                    continue;
                                }
                                r + 1
                            } else {
                                if r < min_run {
                                    continue;
                                }
                                1
                            };
                            if let Some((nx, ny)) = moved((x, y), nd, w, h) {
                                let c = here + rows[ny][nx];
                                let slot = idx(nx, ny, dir_index(nd), nr);
                                if c < best[slot] {
                                    best[slot] = c;
                                    changed = true;
                                }
                            }
                        }
                    }
                }
            }
        }
    }
    let mut least = None;
    for d in 0..4 {
        for r in min_run..=max_run {
            let c = best[idx(goal.0, goal.1, d, r)];
            if c != usize::MAX && least.map_or(true, |l| c < l) {
                least = Some(c);
            }
        }
    }
    least
}

/// Checks that a path is a route from start to goal and returns its cost.
fn audit(rows: &[Vec<usize>], start: (usize, usize), goal: (usize, usize), ultra: bool, path: &[Step]) -> usize {
    let h = rows.len();
    let w = rows[0].len();
    let (min_run, max_run) = limits(ultra);
    assert!(!path.is_empty());
    assert_eq!(path[0].pos, start);
    assert_eq!(path[0].straight_line, 0);
    let mut cost = 0;
    for i in 1..path.len() {
        let a = path[i - 1];
        let b = path[i];
        assert_eq!(moved(a.pos, b.direction, w, h), Some(b.pos));
        assert!(can_move(a.direction, b.direction, a.straight_line, ultra));
        assert_ne!(b.direction, a.direction.backwards());
        if b.direction == a.direction {
            assert_eq!(b.straight_line, a.straight_line + 1);
            assert!((b.straight_line as usize) <= max_run);
        } else {
            assert_eq!(b.straight_line, 1);
            assert!((a.straight_line as usize) >= min_run);
        }
        cost += rows[b.pos.1][b.pos.0];
    }
    let last = path[path.len() - 1];
    assert_eq!(last.pos, goal);
    assert!((last.straight_line as usize) >= min_run);
    cost
}

fn pseudo_grid(w: usize, h: usize, seed: u64) -> Vec<Vec<usize>> {
    let mut state = seed;
    let mut rows = Vec::new();
    for _ in 0..h {
        let mut row = Vec::new();
        for _ in 0..w {
            state = state.wrapping_mul(6364136223846793005).wrapping_add(1442695040888963407);
            row.push(((state >> 33) % 10) as usize);
        }
        rows.push(row);
    }
    rows
}

#[test]
fn example_standard_costs_102() {
    let (cost, path) = part1(EXAMPLE).unwrap();
    assert_eq!(cost, 102);
    assert_eq!(audit(&rows_of(EXAMPLE), (0, 0), (12, 12), false, &path), 102);
}

#[test]
fn example_ultra_costs_94() {
    let (cost, path) = part2(EXAMPLE).unwrap();
    assert_eq!(cost, 94);
    assert_eq!(audit(&rows_of(EXAMPLE), (0, 0), (12, 12), true, &path), 94);
}

#[test]
fn lanes_ultra_costs_71() {
    let (cost, path) = solve(LANES, true).unwrap();
    assert_eq!(cost, 71);
    assert_eq!(audit(&rows_of(LANES), (0, 0), (11, 4), true, &path), 71);
}

#[test]
fn two_by_two_standard() {
    let grid = Grid::construct(vec![vec![1, 2], vec![3, 4]]).unwrap();
    let (cost, path) = straight_line_restricted_dijkstra((0, 0), (1, 1), &grid, false).unwrap();
    assert_eq!(cost, 6);
    assert_eq!(path.len(), 3);
    assert_eq!(path[0].pos, (0, 0));
    assert_eq!(path[1].pos, (1, 0));
    assert_eq!(path[2].pos, (1, 1));
    assert_eq!(path[2].direction, Direction::Down);
    assert_eq!(path[2].straight_line, 1);
}

#[test]
fn start_is_goal_costs_nothing_in_standard_mode() {
    let grid = Grid::construct(vec![vec![5, 5], vec![5, 5]]).unwrap();
    let (cost, path) = straight_line_restricted_dijkstra((1, 1), (1, 1), &grid, false).unwrap();
    assert_eq!(cost, 0);
    assert_eq!(path.len(), 1);
}

#[test]
fn start_is_goal_needs_a_loop_in_ultra_mode() {
    let rows = vec![vec![1; 5]; 5];
    let grid = Grid::construct(rows.clone()).unwrap();
    let found = straight_line_restricted_dijkstra((0, 0), (0, 0), &grid, true);
    assert_eq!(found.as_ref().map(|f| f.0), brute_force(&rows, (0, 0), (0, 0), true));
    let (cost, path) = found.unwrap();
    assert_eq!(cost, 16);
    assert_eq!(audit(&rows, (0, 0), (0, 0), true, &path), 16);
}

#[test]
fn corridor_longer_than_the_longest_run_is_unreachable() {
    let grid = Grid::construct(vec![vec![1, 1, 1, 1, 1]]).unwrap();
    assert_eq!(straight_line_restricted_dijkstra((0, 0), (4, 0), &grid, false), None);
    assert_eq!(straight_line_restricted_dijkstra((0, 0), (3, 0), &grid, false).map(|f| f.0), Some(3));
    assert_eq!(solve("11111", false), Err(SolveError::UnreachableGoal));
    assert_eq!(solve("1111", false).map(|f| f.0), Ok(3));
}

#[test]
fn corridor_shorter_than_the_shortest_run_is_unreachable_in_ultra_mode() {
    assert_eq!(solve("1234", true), Err(SolveError::UnreachableGoal));
    assert_eq!(solve("12345", true).map(|f| f.0), Ok(14));
    assert_eq!(solve("123456789012", true), Err(SolveError::UnreachableGoal));
    assert_eq!(solve("12345678901", true).map(|f| f.0), Ok(45));
}

#[test]
fn goal_outside_the_grid_is_unreachable() {
    let grid = Grid::construct(vec![vec![1, 1], vec![1, 1]]).unwrap();
    assert_eq!(straight_line_restricted_dijkstra((0, 0), (2, 0), &grid, false), None);
}

#[test]
fn malformed_text_is_reported() {
    assert_eq!(solve("12\n1x\n", false), Err(SolveError::Malformed(MalformedInput::NonDigit)));
    assert_eq!(solve("12\n123\n", false), Err(SolveError::Malformed(MalformedInput::JaggedRows)));
    assert_eq!(solve("12\n1a3\n", true), Err(SolveError::Malformed(MalformedInput::NonDigit)));
    assert_eq!(solve("12\r\n34\r\n", false).map(|f| f.0), Ok(6));
    assert_eq!(solve("12\n34\r", false), Err(SolveError::Malformed(MalformedInput::NonDigit)));
}

#[test]
fn matches_exhaustive_search_on_small_grids_standard() {
    for (w, h, seed) in [(1, 1, 1), (2, 3, 2), (4, 4, 3), (5, 3, 4), (6, 6, 5), (3, 6, 6)] {
        let rows = pseudo_grid(w, h, seed);
        let grid = Grid::construct(rows.clone()).unwrap();
        for sy in 0..h {
            for sx in 0..w {
                for gy in 0..h {
                    for gx in 0..w {
                        let found = straight_line_restricted_dijkstra((sx, sy), (gx, gy), &grid, false);
                        let expected = brute_force(&rows, (sx, sy), (gx, gy), false);
                        assert_eq!(found.as_ref().map(|f| f.0), expected);
                        if let Some((cost, path)) = found {
                            assert_eq!(audit(&rows, (sx, sy), (gx, gy), false, &path), cost);
                        }
                    }
                }
            }
        }
    }
}

#[test]
fn matches_exhaustive_search_on_small_grids_ultra() {
    for (w, h, seed) in [(5, 5, 7), (6, 6, 8), (12, 2, 9), (1, 12, 10)] {
        let rows = pseudo_grid(w, h, seed);
        let grid = Grid::construct(rows.clone()).unwrap();
        for (sx, sy) in [(0, 0), (w - 1, 0), (w / 2, h / 2)] {
            for gy in 0..h {
                for gx in 0..w {
                    let found = straight_line_restricted_dijkstra((sx, sy), (gx, gy), &grid, true);
                    let expected = brute_force(&rows, (sx, sy), (gx, gy), true);
                    assert_eq!(found.as_ref().map(|f| f.0), expected);
                    if let Some((cost, path)) = found {
                        assert_eq!(audit(&rows, (sx, sy), (gx, gy), true, &path), cost);
                    }
                }
            }
        }
    }
}

#[test]
fn raising_one_cell_never_lowers_the_least_cost() {
    let rows = pseudo_grid(5, 5, 11);
    let grid = Grid::construct(rows.clone()).unwrap();
    for ultra in [false, true] {
        let before = straight_line_restricted_dijkstra((0, 0), (4, 4), &grid, ultra).map(|f| f.0);
        for y in 0..5 {
            for x in 0..5 {
                let mut raised = rows.clone();
                raised[y][x] += 3;
                let grid2 = Grid::construct(raised).unwrap();
                let after = straight_line_restricted_dijkstra((0, 0), (4, 4), &grid2, ultra).map(|f| f.0);
                assert_eq!(before.is_some(), after.is_some());
                if let (Some(b), Some(a)) = (before, after) {
                    assert!(b <= a);
                }
            }
        }
    }
}

#[test]
fn repeated_runs_give_the_same_cost() {
    let first = part1(EXAMPLE).unwrap();
    let second = part1(EXAMPLE).unwrap();
    assert_eq!(first.0, second.0);
    let third = part2(EXAMPLE).unwrap();
    let fourth = part2(EXAMPLE).unwrap();
    assert_eq!(third.0, fourth.0);
}

#[test]
fn no_step_of_a_route_reverses() {
    for ultra in [false, true] {
        let (_, path) = solve(EXAMPLE, ultra).unwrap();
        for i in 1..path.len() {
            assert_ne!(path[i].direction, path[i - 1].direction.backwards());
        }
    }
}

#[test]
fn ultra_route_keeps_runs_between_four_and_ten() {
    let (_, path) = part2(EXAMPLE).unwrap();
    let mut run = 0;
    for i in 1..path.len() {
        if i > 1 && path[i].direction != path[i - 1].direction {
            assert!(run >= 4);
            run = 0;
        }
        run += 1;
        assert!(run <= 10);
        assert_eq!(path[i].straight_line, run);
    }
    assert!(run >= 4);
}

#[test]
fn can_move_table() {
    assert!(!can_move(Direction::Up, Direction::Down, 1, false));
    assert!(!can_move(Direction::Left, Direction::Right, 5, true));
    assert!(can_move(Direction::Up, Direction::Up, 2, false));
    assert!(!can_move(Direction::Up, Direction::Up, 3, false));
    assert!(can_move(Direction::Up, Direction::Left, 0, false));
    assert!(can_move(Direction::Up, Direction::Up, 9, true));
    assert!(!can_move(Direction::Up, Direction::Up, 10, true));
    assert!(!can_move(Direction::Up, Direction::Right, 3, true));
    assert!(can_move(Direction::Up, Direction::Right, 4, true));
}

#[test]
fn backwards_reverses() {
    assert_eq!(Direction::Up.backwards(), Direction::Down);
    assert_eq!(Direction::Down.backwards(), Direction::Up);
    assert_eq!(Direction::Left.backwards(), Direction::Right);
    assert_eq!(Direction::Right.backwards(), Direction::Left);
    assert_eq!(Direction::Right.glyph(), '>');
    assert_eq!(Direction::Up.index(), 0);
    assert_eq!(Direction::Left.index(), 2);
}

#[test]
fn grid_construct_and_read() {
    let grid = Grid::construct(vec![vec![1, 2, 3], vec![4, 5, 6]]).unwrap();
    assert_eq!(grid.dimensions(), (2, 3));
    assert_eq!(grid.cost(1, 2), 6);
    assert_eq!(grid.cost(0, 1), 2);
    assert!(matches!(Grid::construct(vec![vec![1, 2], vec![3]]), Err(MalformedInput::JaggedRows)));
    assert_eq!(Grid::construct(vec![]).unwrap().dimensions(), (0, 0));
    let parsed = Grid::parse("019\n345").unwrap();
    assert_eq!(parsed.dimensions(), (2, 3));
    assert_eq!(parsed.cost(0, 2), 9);
    assert!(matches!(Grid::parse("01 9"), Err(MalformedInput::NonDigit)));
}

#[test]
fn grids_within_and_beyond_the_machine() {
    assert!(searchable(&Grid::construct(vec![vec![1, 2], vec![3, 4]]).unwrap()));
    assert!(searchable(&Grid::construct(vec![]).unwrap()));
    assert!(searchable(&Grid::construct(vec![vec![usize::MAX / 50]]).unwrap()));
    assert!(!searchable(&Grid::construct(vec![vec![usize::MAX / 40]]).unwrap()));
    assert!(!searchable(&Grid::construct(vec![vec![0, usize::MAX]]).unwrap()));
    assert!(searchable(&Grid::parse("0123456789").unwrap()));
}

fn at(x: usize, y: usize, direction: Direction, straight_line: u8) -> Step {
    Step { pos: (x, y), direction, straight_line }
}

#[test]
fn successor_follows_the_rules_of_the_standard_mode() {
    let grid = Grid::parse("123\n456\n789").unwrap();
    let from = at(1, 1, Direction::Right, 2);
    assert_eq!(successor(&grid, from, Direction::Right, false), Some((at(2, 1, Direction::Right, 3), 6)));
    assert_eq!(successor(&grid, from, Direction::Left, false), None);
    assert_eq!(successor(&grid, from, Direction::Up, false), Some((at(1, 0, Direction::Up, 1), 2)));
    assert_eq!(successor(&grid, from, Direction::Down, false), Some((at(1, 2, Direction::Down, 1), 8)));
    let spent = at(1, 1, Direction::Right, 3);
    assert_eq!(successor(&grid, spent, Direction::Right, false), None);
    assert_eq!(successor(&grid, spent, Direction::Down, false), Some((at(1, 2, Direction::Down, 1), 8)));
    let corner = at(0, 0, Direction::Down, 0);
    assert_eq!(successor(&grid, corner, Direction::Left, false), None);
    assert_eq!(successor(&grid, corner, Direction::Up, false), None);
    assert_eq!(successor(&grid, corner, Direction::Down, false), Some((at(0, 1, Direction::Down, 1), 4)));
    assert_eq!(successor(&grid, corner, Direction::Right, false), Some((at(1, 0, Direction::Right, 1), 2)));
}

#[test]
fn successor_follows_the_rules_of_the_ultra_mode() {
    let grid = Grid::parse("123\n456\n789").unwrap();
    let early = at(1, 1, Direction::Right, 3);
    assert_eq!(successor(&grid, early, Direction::Up, true), None);
    assert_eq!(successor(&grid, early, Direction::Down, true), None);
    assert_eq!(successor(&grid, early, Direction::Left, true), None);
    assert_eq!(successor(&grid, early, Direction::Right, true), Some((at(2, 1, Direction::Right, 4), 6)));
    let ready = at(1, 1, Direction::Right, 4);
    assert_eq!(successor(&grid, ready, Direction::Up, true), Some((at(1, 0, Direction::Up, 1), 2)));
    assert_eq!(successor(&grid, ready, Direction::Right, true), Some((at(2, 1, Direction::Right, 5), 6)));
    let spent = at(1, 1, Direction::Right, 10);
    assert_eq!(successor(&grid, spent, Direction::Right, true), None);
    assert_eq!(successor(&grid, spent, Direction::Down, true), Some((at(1, 2, Direction::Down, 1), 8)));
    let seed = at(0, 0, Direction::Down, 0);
    assert_eq!(successor(&grid, seed, Direction::Right, true), None);
    assert_eq!(successor(&grid, seed, Direction::Down, true), Some((at(0, 1, Direction::Down, 1), 4)));
}

#[test]
fn successors_are_the_legal_moves_in_heading_order() {
    let grid = Grid::parse("123\n456\n789").unwrap();
    assert_eq!(
        successors(&grid, at(1, 1, Direction::Right, 2), false),
        vec![(at(1, 0, Direction::Up, 1), 2), (at(1, 2, Direction::Down, 1), 8), (at(2, 1, Direction::Right, 3), 6)]
    );
    assert_eq!(
        successors(&grid, at(0, 0, Direction::Up, 0), false),
        vec![(at(1, 0, Direction::Right, 1), 2)]
    );
    assert_eq!(
        successors(&grid, at(0, 0, Direction::Left, 0), false),
        vec![(at(0, 1, Direction::Down, 1), 4)]
    );
    assert_eq!(successors(&grid, at(2, 2, Direction::Right, 3), true), vec![]);
    assert_eq!(successors(&grid, at(2, 2, Direction::Right, 4), true), vec![(at(2, 1, Direction::Up, 1), 6)]);
    assert_eq!(successors(&Grid::parse("7").unwrap(), at(0, 0, Direction::Up, 0), false), vec![]);
}
