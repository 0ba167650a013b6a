use aoc23::oasis::{differences, extrapolate, process_diffs};
use aoc23::races::{binsearch, ways_to_win, winning_span};
use aoc23::schematic::get_adjacent_positions;

#[test]
fn inner_cells_around_a_cell() {
    assert_eq!(
        get_adjacent_positions(2, 2, 10, 10),
        vec![(1, 1), (2, 1), (3, 1), (1, 2), (3, 2), (1, 3), (2, 3), (3, 3)]
    );
    assert_eq!(get_adjacent_positions(0, 0, 10, 10), vec![(1, 1)]);
    assert_eq!(get_adjacent_positions(1, 1, 10, 10), vec![(2, 1), (1, 2), (2, 2)]);
    assert_eq!(get_adjacent_positions(9, 9, 10, 10), vec![(8, 8)]);
    assert_eq!(get_adjacent_positions(8, 8, 10, 10), vec![(7, 7), (8, 7), (7, 8)]);
    assert_eq!(get_adjacent_positions(5, 0, 10, 10), vec![(4, 1), (5, 1), (6, 1)]);
    assert_eq!(get_adjacent_positions(1, 1, 3, 3), vec![]);
    assert_eq!(get_adjacent_positions(0, 0, 1, 1), vec![]);
    assert_eq!(get_adjacent_positions(20, 20, 10, 10), vec![]);
}

#[test]
fn halving_finds_the_winning_times_of_a_race() {
    let (time, distance) = (71530i64, 940200i64);
    let lb = binsearch(time, distance, 0, time / 2, true);
    let ub = binsearch(time, distance, time / 2, time, false);
    assert_eq!(lb, 14);
    assert_eq!(ub, 71516);
    assert_eq!(ub - lb + 1, 71503);
    assert!(lb * (time - lb) > distance);
    assert!((lb - 1) * (time - lb + 1) <= distance);
    assert!(ub * (time - ub) > distance);
    assert!((ub + 1) * (time - ub - 1) <= distance);
}

#[test]
fn halving_on_small_spans() {
    assert_eq!(binsearch(7, 9, 0, 3, true), 2);
    assert_eq!(binsearch(7, 9, 3, 7, false), 5);
    assert_eq!(binsearch(7, 9, 4, 5, true), 5);
    assert_eq!(binsearch(7, 9, 4, 5, false), 4);
    assert_eq!(binsearch(7, 9, 4, 4, true), 4);
    assert_eq!(binsearch(7, 9, 5, 4, false), 5);
    assert_eq!(binsearch(15, 40, 0, 7, true), 4);
    assert_eq!(binsearch(15, 40, 7, 15, false), 11);
    assert_eq!(binsearch(30, 200, 0, 15, true), 11);
    assert_eq!(binsearch(30, 200, 15, 30, false), 19);
    assert_eq!(binsearch(10, 0, -7, -2, true), -2);
    assert_eq!(binsearch(10, -100, -7, -2, true), -6);
}

#[test]
fn differences_of_a_row() {
    assert_eq!(differences(&vec![0, 3, 6, 9, 12, 15]), (vec![3, 3, 3, 3, 3], true));
    assert_eq!(differences(&vec![1, 3, 6, 10, 15, 21]), (vec![2, 3, 4, 5, 6], false));
    assert_eq!(differences(&vec![5]), (vec![], true));
    assert_eq!(differences(&vec![]), (vec![], true));
    assert_eq!(differences(&vec![4, 1]), (vec![-3], true));
    assert_eq!(differences(&vec![1, 2, 3, 5]), (vec![1, 1, 2], false));
    assert_eq!(differences(&vec![1, 3, 4, 5]), (vec![2, 1, 1], false));
}

#[test]
fn rows_below_a_history() {
    assert_eq!(process_diffs(vec![0, 3, 6, 9, 12, 15]), vec![vec![0, 3, 6, 9, 12, 15], vec![3, 3, 3, 3, 3]]);
    assert_eq!(
        process_diffs(vec![1, 3, 6, 10, 15, 21]),
        vec![vec![1, 3, 6, 10, 15, 21], vec![2, 3, 4, 5, 6], vec![1, 1, 1, 1]]
    );
    assert_eq!(
        process_diffs(vec![10, 13, 16, 21, 30, 45]),
        vec![vec![10, 13, 16, 21, 30, 45], vec![3, 3, 5, 9, 15], vec![0, 2, 4, 6], vec![2, 2, 2]]
    );
    assert_eq!(process_diffs(vec![7]), vec![vec![7], vec![]]);
    assert_eq!(process_diffs(vec![7, 7]), vec![vec![7, 7], vec![0]]);
    assert_eq!(process_diffs(vec![1, 2, 4]), vec![vec![1, 2, 4], vec![1, 2], vec![1]]);
}

#[test]
fn values_after_and_before_a_history() {
    assert_eq!(extrapolate(vec![0, 3, 6, 9, 12, 15]), (18, -3));
    assert_eq!(extrapolate(vec![1, 3, 6, 10, 15, 21]), (28, 0));
    assert_eq!(extrapolate(vec![10, 13, 16, 21, 30, 45]), (68, 5));
    assert_eq!(extrapolate(vec![7, 7]), (7, 7));
    assert_eq!(extrapolate(vec![1, 2, 4]), (7, 1));
    assert_eq!(extrapolate(vec![5, 3]), (1, 7));
    let histories = [vec![0, 3, 6, 9, 12, 15], vec![1, 3, 6, 10, 15, 21], vec![10, 13, 16, 21, 30, 45]];
    let after: i32 = histories.iter().map(|h| extrapolate(h.clone()).0).sum();
    let before: i32 = histories.iter().map(|h| extrapolate(h.clone()).1).sum();
    assert_eq!(after, 114);
    assert_eq!(before, 2);
}

#[test]
fn ways_to_beat_the_records() {
    assert_eq!(ways_to_win(7, 9), 4);
    assert_eq!(ways_to_win(15, 40), 8);
    assert_eq!(ways_to_win(30, 200), 9);
    assert_eq!(ways_to_win(7, 9) * ways_to_win(15, 40) * ways_to_win(30, 200), 288);
    assert_eq!(ways_to_win(1, 0), 0);
    assert_eq!(ways_to_win(0, 0), 0);
    assert_eq!(ways_to_win(2, 0), 1);
    assert_eq!(ways_to_win(2, 1), 0);
    assert_eq!(ways_to_win(-3, 0), 0);
}

#[test]
fn span_of_the_winning_times() {
    assert_eq!(winning_span(71530, 940200), 71503);
    assert_eq!(winning_span(7, 9), 4);
    assert_eq!(winning_span(15, 40), 8);
    assert_eq!(winning_span(30, 200), 9);
}
