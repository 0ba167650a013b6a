use std::collections::VecDeque;

use aoc23::cycles::{gcd, lcm, Instruction};
use aoc23::frontier::Frontier;
use aoc23::lagoon;
use aoc23::lens::hash;
use aoc23::mirrors::{parse_input, push_boundschecked, BeamDirection, MirrorType};
use aoc23::parts::{Comparator, Part, RatingType};
use aoc23::pipes::{connects_down, connects_left, connects_right, connects_up, find_start, get_adjacent_pipes};
use aoc23::overlay::Overlay;
use aoc23::states::{neighbour, Step};
use aoc23::table::slot_of;
use aoc23::text::split_lines;
use aoc23::heading::Direction;

fn field(rows: &[&str]) -> Vec<Vec<char>> {
    rows.iter().map(|r| r.chars().collect()).collect()
}

#[test]
fn frontier_gives_entries_in_cost_order() {
    let mut f = Frontier::new();
    for (i, c) in [7usize, 3, 9, 3, 1, 8, 2, 2, 6].iter().enumerate() {
        f.push(*c, i);
    }
    assert_eq!(f.len(), 9);
    let mut costs = Vec::new();
    let mut ids = Vec::new();
    while let Some((c, id)) = f.pop() {
        costs.push(c);
        ids.push(id);
    }
    assert_eq!(costs, vec![1, 2, 2, 3, 3, 6, 7, 8, 9]);
    ids.sort();
    assert_eq!(ids, vec![0, 1, 2, 3, 4, 5, 6, 7, 8]);
    assert_eq!(f.len(), 0);
    assert_eq!(f.pop(), None);
}

#[test]
fn slots_are_dense_and_distinct() {
    let (w, h) = (3usize, 2usize);
    let mut seen = vec![false; w * h * 44];
    for y in 0..h {
        for x in 0..w {
            for d in [Direction::Up, Direction::Down, Direction::Left, Direction::Right] {
                for run in 0..=10u8 {
                    let k = slot_of(w, h, x, y, d, run);
                    assert!(!seen[k]);
                    seen[k] = true;
                }
            }
        }
    }
    assert!(seen.iter().all(|s| *s));
    assert_eq!(slot_of(3, 2, 2, 1, Direction::Right, 10), 263);
    assert_eq!(slot_of(3, 2, 1, 0, Direction::Down, 2), 57);
}

#[test]
fn neighbours_stop_at_the_edge() {
    assert_eq!(neighbour(3, 2, (0, 0), Direction::Up), None);
    assert_eq!(neighbour(3, 2, (0, 0), Direction::Left), None);
    assert_eq!(neighbour(3, 2, (0, 0), Direction::Right), Some((1, 0)));
    assert_eq!(neighbour(3, 2, (0, 0), Direction::Down), Some((0, 1)));
    assert_eq!(neighbour(3, 2, (2, 1), Direction::Right), None);
    assert_eq!(neighbour(3, 2, (2, 1), Direction::Down), None);
    assert_eq!(neighbour(3, 2, (2, 1), Direction::Up), Some((2, 0)));
}

#[test]
fn lines_are_split_at_line_feeds() {
    let lines = split_lines(b"ab\ncd\r\n\nef");
    assert_eq!(lines, vec![b"ab".to_vec(), b"cd".to_vec(), b"".to_vec(), b"ef".to_vec()]);
    assert_eq!(split_lines(b""), Vec::<Vec<u8>>::new());
    assert_eq!(split_lines(b"\n"), vec![Vec::<u8>::new()]);
    assert_eq!(split_lines(b"a\r"), vec![b"a\r".to_vec()]);
    assert_eq!(split_lines(b"a\r\r\n"), vec![b"a\r".to_vec()]);
    assert_eq!(split_lines(b"x\n"), vec![b"x".to_vec()]);
}

#[test]
fn pipe_tiles_open_to_their_sides() {
    for c in ['|', '7', 'F', 'S'] {
        assert!(connects_down(c));
    }
    for c in ['-', 'L', 'J', '.'] {
        assert!(!connects_down(c));
    }
    for c in ['|', 'L', 'J', 'S'] {
        assert!(connects_up(c));
    }
    for c in ['-', '7', 'F', '.'] {
        assert!(!connects_up(c));
    }
    for c in ['-', 'J', '7', 'S'] {
        assert!(connects_left(c));
    }
    for c in ['|', 'L', 'F', '.'] {
        assert!(!connects_left(c));
    }
    for c in ['-', 'L', 'F', 'S'] {
        assert!(connects_right(c));
    }
    for c in ['|', 'J', '7', '.'] {
        assert!(!connects_right(c));
    }
}

#[test]
fn start_tile_is_found_in_reading_order() {
    let g = field(&[".....", ".S-7.", ".|.|.", ".L-J.", "....."]);
    assert_eq!(find_start(&g), (1, 1));
    let two = field(&["..S", "S.."]);
    assert_eq!(find_start(&two), (2, 0));
}

#[test]
fn joined_neighbours_of_pipe_tiles() {
    let g = field(&[".....", ".S-7.", ".|.|.", ".L-J.", "....."]);
    assert_eq!(get_adjacent_pipes(&g, (1, 1)), vec![(1, 2), (2, 1)]);
    assert_eq!(get_adjacent_pipes(&g, (2, 1)), vec![(3, 1), (1, 1)]);
    assert_eq!(get_adjacent_pipes(&g, (3, 1)), vec![(3, 2), (2, 1)]);
    assert_eq!(get_adjacent_pipes(&g, (1, 2)), vec![(1, 1), (1, 3)]);
    assert_eq!(get_adjacent_pipes(&g, (1, 3)), vec![(1, 2), (2, 3)]);
    assert_eq!(get_adjacent_pipes(&g, (3, 3)), vec![(3, 2), (2, 3)]);
    assert_eq!(get_adjacent_pipes(&g, (2, 2)), vec![]);
    let loose = field(&["...", ".|.", "..."]);
    assert_eq!(get_adjacent_pipes(&loose, (1, 1)), vec![]);
}

#[test]
fn instructions_from_characters() {
    assert_eq!(Instruction::from_char('R'), Some(Instruction::Right));
    assert_eq!(Instruction::from_char('L'), Some(Instruction::Left));
    assert_eq!(Instruction::from_char('r'), None);
    assert_eq!(Instruction::from_char(' '), None);
}

#[test]
fn gcd_and_lcm_values() {
    assert_eq!(gcd(12, 18), 6);
    assert_eq!(gcd(18, 12), 6);
    assert_eq!(gcd(7, 0), 7);
    assert_eq!(gcd(0, 7), 7);
    assert_eq!(gcd(0, 0), 0);
    assert_eq!(gcd(17, 5), 1);
    assert_eq!(lcm(4, 6), 12);
    assert_eq!(lcm(3, 5), 15);
    assert_eq!(lcm(0, 5), 0);
    assert_eq!(lcm(21, 6), 42);
    for a in 1..30u64 {
        for b in 1..30u64 {
            let g = gcd(a, b);
            assert_eq!(a % g, 0);
            assert_eq!(b % g, 0);
            for d in 1..=a.min(b) {
                if a % d == 0 && b % d == 0 {
                    assert_eq!(g % d, 0);
                }
            }
            let l = lcm(a, b);
            assert_eq!(l % a, 0);
            assert_eq!(l % b, 0);
        }
    }
}

#[test]
fn trench_directions_and_moves() {
    assert_eq!(lagoon::Direction::from_i64(0), Some(lagoon::Direction::Right));
    assert_eq!(lagoon::Direction::from_i64(1), Some(lagoon::Direction::Down));
    assert_eq!(lagoon::Direction::from_i64(2), Some(lagoon::Direction::Left));
    assert_eq!(lagoon::Direction::from_i64(3), Some(lagoon::Direction::Up));
    assert_eq!(lagoon::Direction::from_i64(4), None);
    assert_eq!(lagoon::Direction::from_i64(-1), None);
    assert_eq!(lagoon::Direction::Up.move_in((2, 3), 5), (2, -2));
    assert_eq!(lagoon::Direction::Down.move_in((2, 3), 5), (2, 8));
    assert_eq!(lagoon::Direction::Left.move_in((2, 3), 5), (-3, 3));
    assert_eq!(lagoon::Direction::Right.move_in((2, 3), 5), (7, 3));
}

#[test]
fn lagoon_of_the_small_dig_plan_holds_62_cells() {
    let (right, down, left, up) =
        (lagoon::Direction::Right, lagoon::Direction::Down, lagoon::Direction::Left, lagoon::Direction::Up);
    let plan = [
        (right, 6),
        (down, 5),
        (left, 2),
        (down, 2),
        (right, 2),
        (down, 2),
        (left, 5),
        (up, 2),
        (left, 1),
        (up, 2),
        (right, 2),
        (up, 3),
        (left, 2),
        (up, 2),
    ];
    let mut p = (0i64, 0i64);
    let mut b = 0;
    let mut points = Vec::new();
    for (d, n) in plan {
        b += n;
        p = d.move_in(p, n);
        points.push(p);
    }
    assert_eq!(b, 38);
    assert_eq!(lagoon::shoelace(&points), 42);
    assert_eq!(lagoon::pick(&points, b), 62);
}

#[test]
fn shoelace_of_few_points() {
    assert_eq!(lagoon::shoelace(&[]), 0);
    assert_eq!(lagoon::shoelace(&[(3, 4)]), 0);
    assert_eq!(lagoon::shoelace(&[(0, 0), (2, 0), (2, 2), (0, 2), (0, 0)]), 4);
    assert_eq!(lagoon::shoelace(&[(0, 0), (0, 2), (2, 2), (2, 0), (0, 0)]), 4);
    assert_eq!(lagoon::shoelace(&[(0, 0), (1, 0), (1, 1), (0, 0)]), 0);
    assert_eq!(lagoon::pick(&[(0, 0), (2, 0), (2, 2), (0, 2), (0, 0)], 8), 9);
    assert_eq!(lagoon::pick(&[], -3), 0);
}

#[test]
fn label_hashes() {
    assert_eq!(hash("HASH"), 52);
    assert_eq!(hash("rn=1"), 30);
    assert_eq!(hash("cm-"), 253);
    assert_eq!(hash("rn"), 0);
    assert_eq!(hash("qp"), 1);
    assert_eq!(hash(""), 0);
    assert_eq!(hash("a-very-long-label-that-would-not-fit-a-machine-word"), {
        let mut h: u32 = 0;
        for c in "a-very-long-label-that-would-not-fit-a-machine-word".chars() {
            h = ((h + c as u32) * 17) % 256;
        }
        h as u8
    });
}

#[test]
fn contraption_from_text() {
    let rows = parse_input(".|-\n/\\.\n");
    assert_eq!(
        rows,
        vec![
            vec![MirrorType::Empty, MirrorType::VerticalSplit, MirrorType::HorizontalSplit],
            vec![MirrorType::RightMirror, MirrorType::LeftMirror, MirrorType::Empty],
        ]
    );
    assert_eq!(parse_input(""), Vec::<Vec<MirrorType>>::new());
}

#[test]
fn beams_are_queued_inside_the_field_only() {
    let mut q = VecDeque::new();
    push_boundschecked(0, 0, -1, 0, 3, 3, BeamDirection::Leftwards, &mut q);
    push_boundschecked(0, 0, 0, -1, 3, 3, BeamDirection::Upwards, &mut q);
    push_boundschecked(2, 2, 1, 0, 3, 3, BeamDirection::Rightwards, &mut q);
    push_boundschecked(2, 2, 0, 1, 3, 3, BeamDirection::Downwards, &mut q);
    assert!(q.is_empty());
    push_boundschecked(1, 1, 1, 0, 3, 3, BeamDirection::Rightwards, &mut q);
    push_boundschecked(1, 1, 0, -1, 3, 3, BeamDirection::Upwards, &mut q);
    assert_eq!(
        q.into_iter().collect::<Vec<_>>(),
        vec![(2, 1, BeamDirection::Rightwards), (1, 0, BeamDirection::Upwards)]
    );
}

#[test]
fn ratings_are_read_compared_and_set() {
    let mut p = Part { x: 1, m: 20, a: 300, s: 4000 };
    assert_eq!(p.get_rating_by_type(RatingType::X), 1);
    assert_eq!(p.get_rating_by_type(RatingType::M), 20);
    assert_eq!(p.get_rating_by_type(RatingType::A), 300);
    assert_eq!(p.get_rating_by_type(RatingType::S), 4000);
    assert!(Comparator::LessThan.apply(RatingType::M, p, 21));
    assert!(!Comparator::LessThan.apply(RatingType::M, p, 20));
    assert!(Comparator::GreaterThan.apply(RatingType::A, p, 299));
    assert!(!Comparator::GreaterThan.apply(RatingType::A, p, 300));
    *p.get_rating_mut_by_type(RatingType::S) = 5;
    *p.get_rating_mut_by_type(RatingType::X) += 10;
    assert_eq!(p, Part { x: 11, m: 20, a: 300, s: 5 });
}

#[test]
fn overlay_marks_the_cells_of_a_route() {
    let step = |x: usize, y: usize, direction: Direction, straight_line: u8| Step { pos: (x, y), direction, straight_line };
    let path = vec![
        step(0, 0, Direction::Up, 0),
        step(1, 0, Direction::Right, 1),
        step(1, 1, Direction::Down, 1),
        step(0, 1, Direction::Left, 1),
        step(0, 0, Direction::Up, 1),
        step(1, 0, Direction::Right, 1),
        step(2, 0, Direction::Right, 2),
    ];
    let marks = Overlay::of(&path, 2, 3);
    assert_eq!(marks.at(0, 0), Some(Direction::Up));
    assert_eq!(marks.at(1, 0), Some(Direction::Right));
    assert_eq!(marks.at(2, 0), Some(Direction::Right));
    assert_eq!(marks.at(0, 1), Some(Direction::Left));
    assert_eq!(marks.at(1, 1), Some(Direction::Down));
    assert_eq!(marks.at(2, 1), None);
    let back = vec![step(1, 0, Direction::Left, 0), step(0, 0, Direction::Left, 1), step(1, 0, Direction::Right, 1)];
    let marks = Overlay::of(&back, 1, 2);
    assert_eq!(marks.at(1, 0), Some(Direction::Right));
    assert_eq!(marks.at(0, 0), Some(Direction::Left));
    let none = Overlay::of(&Vec::new(), 2, 2);
    assert_eq!(none.at(1, 1), None);
}

#[test]
fn lagoon_sizes_of_dig_plans() {
    let (right, down, left, up) =
        (lagoon::Direction::Right, lagoon::Direction::Down, lagoon::Direction::Left, lagoon::Direction::Up);
    let small = vec![
        (right, 6),
        (down, 5),
        (left, 2),
        (down, 2),
        (right, 2),
        (down, 2),
        (left, 5),
        (up, 2),
        (left, 1),
        (up, 2),
        (right, 2),
        (up, 3),
        (left, 2),
        (up, 2),
    ];
    assert_eq!(lagoon::lagoon_size(&small), 62);
    let large = vec![
        (right, 461937),
        (down, 56407),
        (right, 356671),
        (down, 863240),
        (right, 367720),
        (down, 266681),
        (left, 577262),
        (up, 829975),
        (left, 112010),
        (down, 829975),
        (left, 491645),
        (up, 686074),
        (left, 5411),
        (up, 500254),
    ];
    assert_eq!(lagoon::lagoon_size(&large), 952408144115);
    assert_eq!(lagoon::lagoon_size(&Vec::new()), 1);
    assert_eq!(lagoon::lagoon_size(&vec![(right, 1), (down, 1), (left, 1), (up, 1)]), 4);
}
