use std::cmp::Ordering;

use aoc23::cards::{card_to_u32, compare_cards, HandType};
use aoc23::reflection::{find_reflection, is_existing, rows_equal, Reflection};

fn pattern(rows: &[&str]) -> Vec<Vec<bool>> {
    rows.iter().map(|r| r.chars().map(|c| c == '#').collect()).collect()
}

fn first() -> Vec<Vec<bool>> {
    pattern(&["#.##..##.", "..#.##.#.", "##......#", "##......#", "..#.##.#.", "..##..##.", "#.#.##.#."])
}

fn second() -> Vec<Vec<bool>> {
    pattern(&["#...##..#", "#....#..#", "..##..###", "#####.##.", "#####.##.", "..##..###", "#....#..#"])
}

#[test]
fn reflection_between_columns() {
    assert_eq!(find_reflection(&first(), None), Some(Reflection::Vertical { col: 5 }));
}

#[test]
fn reflection_between_rows() {
    assert_eq!(find_reflection(&second(), None), Some(Reflection::Horizontal { row: 4 }));
}

#[test]
fn existing_reflection_is_passed_over() {
    assert_eq!(find_reflection(&first(), Some(Reflection::Vertical { col: 5 })), None);
    assert_eq!(find_reflection(&second(), Some(Reflection::Horizontal { row: 4 })), None);
    assert_eq!(find_reflection(&second(), Some(Reflection::Vertical { col: 4 })), Some(Reflection::Horizontal { row: 4 }));
    let mut cleaned = first();
    cleaned[0][0] = false;
    assert_eq!(find_reflection(&cleaned, Some(Reflection::Vertical { col: 5 })), Some(Reflection::Horizontal { row: 3 }));
    assert_eq!(find_reflection(&cleaned, None), Some(Reflection::Horizontal { row: 3 }));
    let mut cleaned = second();
    cleaned[1][4] = true;
    assert_eq!(find_reflection(&cleaned, Some(Reflection::Horizontal { row: 4 })), Some(Reflection::Horizontal { row: 1 }));
}

#[test]
fn smallest_patterns() {
    assert_eq!(find_reflection(&pattern(&["#"]), None), None);
    assert_eq!(find_reflection(&pattern(&["##"]), None), Some(Reflection::Vertical { col: 1 }));
    assert_eq!(find_reflection(&pattern(&["#", "#"]), None), Some(Reflection::Horizontal { row: 1 }));
    assert_eq!(find_reflection(&pattern(&["#.", ".#"]), None), None);
    assert_eq!(find_reflection(&pattern(&["##", "##"]), None), Some(Reflection::Horizontal { row: 1 }));
    assert_eq!(
        find_reflection(&pattern(&["##", "##"]), Some(Reflection::Horizontal { row: 1 })),
        Some(Reflection::Vertical { col: 1 })
    );
}

#[test]
fn rows_and_lines_compare() {
    assert!(rows_equal(&vec![true, false], &vec![true, false]));
    assert!(!rows_equal(&vec![true, false], &vec![true, true]));
    assert!(!rows_equal(&vec![true], &vec![true, true]));
    assert!(rows_equal(&vec![], &vec![]));
    assert!(is_existing(Some(Reflection::Vertical { col: 2 }), Reflection::Vertical { col: 2 }));
    assert!(!is_existing(Some(Reflection::Vertical { col: 2 }), Reflection::Vertical { col: 3 }));
    assert!(!is_existing(Some(Reflection::Vertical { col: 2 }), Reflection::Horizontal { row: 2 }));
    assert!(is_existing(Some(Reflection::Horizontal { row: 1 }), Reflection::Horizontal { row: 1 }));
    assert!(!is_existing(None, Reflection::Horizontal { row: 1 }));
}

#[test]
fn card_strengths() {
    let labels = ['2', '3', '4', '5', '6', '7', '8', '9', 'T', 'J', 'Q', 'K', 'A'];
    let values: Vec<u32> = labels.iter().map(|c| card_to_u32(*c, 11)).collect();
    assert_eq!(values, vec![2, 3, 4, 5, 6, 7, 8, 9, 10, 11, 12, 13, 14]);
    assert_eq!(card_to_u32('J', 1), 1);
    assert_eq!(card_to_u32('0', 11), 0);
    assert_eq!(card_to_u32('1', 11), 1);
    assert_eq!(compare_cards('2', '3', 11), Ordering::Less);
    assert_eq!(compare_cards('K', 'Q', 11), Ordering::Greater);
    assert_eq!(compare_cards('T', 'T', 11), Ordering::Equal);
    assert_eq!(compare_cards('J', 'T', 11), Ordering::Greater);
    assert_eq!(compare_cards('J', '2', 1), Ordering::Less);
    assert_eq!(compare_cards('A', 'K', 1), Ordering::Greater);
}

#[test]
fn hand_kinds_without_jokers() {
    assert_eq!(HandType::from_hand("AAAAA", false), HandType::FiveKind);
    assert_eq!(HandType::from_hand("AA8AA", false), HandType::FourKind);
    assert_eq!(HandType::from_hand("23332", false), HandType::FullHouse);
    assert_eq!(HandType::from_hand("TTT98", false), HandType::ThreeKind);
    assert_eq!(HandType::from_hand("23432", false), HandType::TwoPair);
    assert_eq!(HandType::from_hand("A23A4", false), HandType::OnePair);
    assert_eq!(HandType::from_hand("23456", false), HandType::HighCard);
    assert_eq!(HandType::from_hand("32T3K", false), HandType::OnePair);
    assert_eq!(HandType::from_hand("T55J5", false), HandType::ThreeKind);
    assert_eq!(HandType::from_hand("KK677", false), HandType::TwoPair);
    assert_eq!(HandType::from_hand("KTJJT", false), HandType::TwoPair);
    assert_eq!(HandType::from_hand("QQQJA", false), HandType::ThreeKind);
    assert_eq!(HandType::from_hand("JJJJJ", false), HandType::FiveKind);
}

#[test]
fn hand_kinds_with_jokers() {
    assert_eq!(HandType::from_hand("32T3K", true), HandType::OnePair);
    assert_eq!(HandType::from_hand("KK677", true), HandType::TwoPair);
    assert_eq!(HandType::from_hand("T55J5", true), HandType::FourKind);
    assert_eq!(HandType::from_hand("KTJJT", true), HandType::FourKind);
    assert_eq!(HandType::from_hand("QQQJA", true), HandType::FourKind);
    assert_eq!(HandType::from_hand("JJJJJ", true), HandType::FiveKind);
    assert_eq!(HandType::from_hand("JJJJ2", true), HandType::FiveKind);
    assert_eq!(HandType::from_hand("2233J", true), HandType::FullHouse);
    assert_eq!(HandType::from_hand("2345J", true), HandType::OnePair);
    assert_eq!(HandType::from_hand("234JJ", true), HandType::ThreeKind);
    assert_eq!(HandType::from_hand("23456", true), HandType::HighCard);
    assert_eq!(HandType::from_hand("J2J3J", true), HandType::FourKind);
}

#[test]
fn hand_kinds_are_ordered_strongest_first() {
    assert!(HandType::FiveKind < HandType::FourKind);
    assert!(HandType::FourKind < HandType::FullHouse);
    assert!(HandType::FullHouse < HandType::ThreeKind);
    assert!(HandType::ThreeKind < HandType::TwoPair);
    assert!(HandType::TwoPair < HandType::OnePair);
    assert!(HandType::OnePair < HandType::HighCard);
}
