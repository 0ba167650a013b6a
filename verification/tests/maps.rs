use aoc23::almanac::Mapping;
use aoc23::trails::{adjacent, is_intersection, next_pos};

fn field(rows: &[&str]) -> Vec<Vec<char>> {
    rows.iter().map(|r| r.chars().collect()).collect()
}

fn soil() -> Vec<Mapping> {
    vec![Mapping { in_start: 98, out_start: 50, len: 2 }, Mapping { in_start: 50, out_start: 52, len: 48 }]
}

#[test]
fn mapping_moves_the_numbers_of_its_stretch() {
    let m = Mapping { in_start: 98, out_start: 50, len: 2 };
    assert_eq!(m.map(97), (97, false));
    assert_eq!(m.map(98), (50, true));
    assert_eq!(m.map(99), (51, true));
    assert_eq!(m.map(100), (100, false));
    let n = Mapping { in_start: 50, out_start: 52, len: 48 };
    assert_eq!(n.map(79), (81, true));
    assert_eq!(n.map(14), (14, false));
    assert_eq!(n.map(55), (57, true));
    assert_eq!(n.map(13), (13, false));
}

#[test]
fn mapping_cuts_a_range_into_parts() {
    let m = Mapping { in_start: 10, out_start: 100, len: 5 };
    assert_eq!(m.map_range(0, 30), vec![(0, 10, false), (100, 5, true), (15, 15, false)]);
    assert_eq!(m.map_range(12, 2), vec![(102, 2, true)]);
    assert_eq!(m.map_range(12, 10), vec![(102, 3, true), (15, 7, false)]);
    assert_eq!(m.map_range(5, 8), vec![(5, 5, false), (100, 3, true)]);
    assert_eq!(m.map_range(20, 5), vec![(20, 5, false)]);
    assert_eq!(m.map_range(0, 5), vec![(0, 5, false)]);
    assert_eq!(m.map_range(0, 10), vec![(0, 10, false), (100, 0, true)]);
    assert_eq!(m.map_range(15, 5), vec![(15, 0, true), (15, 5, false)]);
    assert_eq!(m.map_range(10, 5), vec![(100, 5, true)]);
}

#[test]
fn ranges_go_through_all_mappings() {
    assert_eq!(Mapping::map_all_range(&soil(), 79, 14), vec![(81, 14)]);
    assert_eq!(Mapping::map_all_range(&soil(), 55, 13), vec![(57, 13)]);
    assert_eq!(Mapping::map_all_range(&soil(), 90, 20), vec![(92, 8), (50, 2), (100, 10)]);
    assert_eq!(Mapping::map_all_range(&soil(), 40, 20), vec![(40, 10), (52, 10)]);
    assert_eq!(Mapping::map_all_range(&[], 5, 3), vec![(5, 3)]);
    assert_eq!(Mapping::map_all_range(&[], 5, 0), vec![]);
    assert_eq!(Mapping::map_all_range(&soil(), 0, 10), vec![(0, 10)]);
    assert_eq!(Mapping::map_all_range(&soil()[1..], 90, 20), vec![(92, 8), (98, 12)]);
    assert_eq!(Mapping::map_all_range(&soil()[2..], 90, 20), vec![(90, 20)]);
}

#[test]
fn every_number_of_a_range_lands_in_one_of_its_images() {
    let maps = soil();
    for (start, len) in [(0i64, 120i64), (45, 10), (95, 10), (98, 2)] {
        let out = Mapping::map_all_range(&maps, start, len);
        assert_eq!(out.iter().map(|r| r.1).sum::<i64>(), len);
        for v in start..start + len {
            let mut image = v;
            for m in &maps {
                let (to, moved) = m.map(image);
                image = to;
                if moved {
                    break;
                }
            }
            assert_eq!(out.iter().filter(|r| r.0 <= image && image < r.0 + r.1).count(), 1);
        }
    }
}

#[test]
fn open_neighbours_of_a_tile() {
    let g = field(&["#.###", "#...#", "#.#.#", "#...#", "###.#"]);
    assert_eq!(adjacent(&g, (1, 1)), vec![(2, 1), (1, 0), (1, 2)]);
    assert_eq!(adjacent(&g, (1, 0)), vec![(1, 1)]);
    assert_eq!(adjacent(&g, (3, 4)), vec![(3, 3)]);
    assert_eq!(adjacent(&g, (2, 2)), vec![(1, 2), (3, 2), (2, 1), (2, 3)]);
    assert_eq!(adjacent(&g, (0, 4)), vec![]);
    assert_eq!(adjacent(&g, (0, 0)), vec![(1, 0)]);
    assert_eq!(adjacent(&g, (4, 4)), vec![(3, 4)]);
    let slopes = field(&["#.#", "#v#", "#.#"]);
    assert_eq!(adjacent(&slopes, (1, 0)), vec![]);
    assert_eq!(adjacent(&slopes, (1, 1)), vec![(1, 0), (1, 2)]);
}

#[test]
fn tiles_where_paths_meet() {
    let g = field(&["#.###", "#...#", "#.#.#", "#...#", "###.#"]);
    assert!(is_intersection(&g, (1, 1)));
    assert!(!is_intersection(&g, (2, 1)));
    assert!(!is_intersection(&g, (1, 0)));
    assert!(is_intersection(&g, (3, 3)));
    assert!(!is_intersection(&g, (1, 3)));
    let slopes = field(&["#.#", ">.<", "#^#"]);
    assert!(is_intersection(&slopes, (1, 1)));
    assert_eq!(adjacent(&slopes, (1, 1)), vec![(1, 0)]);
}

#[test]
fn the_way_onwards_is_not_the_way_back() {
    let g = field(&["#.###", "#...#", "###.#", "#...#", "#.###"]);
    assert_eq!(next_pos(&g, (1, 0), (0, 0)), (1, 1));
    assert_eq!(next_pos(&g, (1, 1), (1, 0)), (2, 1));
    assert_eq!(next_pos(&g, (2, 1), (1, 1)), (3, 1));
    assert_eq!(next_pos(&g, (3, 1), (2, 1)), (3, 2));
    assert_eq!(next_pos(&g, (3, 2), (3, 1)), (3, 3));
    assert_eq!(next_pos(&g, (3, 3), (3, 2)), (2, 3));
    assert_eq!(next_pos(&g, (2, 1), (3, 1)), (1, 1));
}

#[test]
fn many_mappings_need_no_deep_calls() {
    let maps: Vec<Mapping> = (0..20_000).map(|i| Mapping { in_start: 2 * i, out_start: 2 * i + 1, len: 1 }).collect();
    let out = Mapping::map_all_range(&maps, 0, 4);
    assert_eq!(out, vec![(1, 1), (1, 1), (3, 1), (3, 1)]);
    let far = Mapping::map_all_range(&maps, 50_000, 3);
    assert_eq!(far, vec![(50_000, 3)]);
}
