use aoc23::beams::{brightest_entry, dir_index, get_energised_tiles, outgoing};
use aoc23::mirrors::{parse_input, BeamDirection, MirrorType};

const CONTRAPTION: &str = ".|...\\....\n|.-.\\.....\n.....|-...\n........|.\n..........\n.........\\\n..../.\\\\..\n.-.-/..|..\n.|....-|.\\\n..//.|....\n";

#[test]
fn light_from_the_top_left_reaches_46_tiles() {
    let grid = parse_input(CONTRAPTION);
    assert_eq!(grid.len(), 10);
    assert_eq!(grid[0].len(), 10);
    assert_eq!(get_energised_tiles(&grid, 0, 0, BeamDirection::Rightwards), 46);
}

#[test]
fn the_best_entry_reaches_51_tiles() {
    let grid = parse_input(CONTRAPTION);
    assert_eq!(get_energised_tiles(&grid, 3, 0, BeamDirection::Downwards), 51);
    let mut best = 0;
    for x in 0..10 {
        best = best.max(get_energised_tiles(&grid, x, 0, BeamDirection::Downwards));
        best = best.max(get_energised_tiles(&grid, x, 9, BeamDirection::Upwards));
    }
    for y in 0..10 {
        best = best.max(get_energised_tiles(&grid, 0, y, BeamDirection::Rightwards));
        best = best.max(get_energised_tiles(&grid, 9, y, BeamDirection::Leftwards));
    }
    assert_eq!(best, 51);
    assert_eq!(brightest_entry(&grid), 51);
    assert_eq!(brightest_entry(&parse_input(".")), 1);
    assert_eq!(brightest_entry(&parse_input("..\n..")), 2);
    assert_eq!(brightest_entry(&parse_input("-..")), 3);
    assert_eq!(brightest_entry(&parse_input("|..")), 3);
}

#[test]
fn light_in_small_contraptions() {
    assert_eq!(get_energised_tiles(&parse_input("."), 0, 0, BeamDirection::Rightwards), 1);
    assert_eq!(get_energised_tiles(&parse_input("...."), 0, 0, BeamDirection::Rightwards), 4);
    assert_eq!(get_energised_tiles(&parse_input("...."), 2, 0, BeamDirection::Leftwards), 3);
    assert_eq!(get_energised_tiles(&parse_input("...."), 2, 0, BeamDirection::Upwards), 1);
    assert_eq!(get_energised_tiles(&parse_input(".\\.\n...\n..."), 0, 0, BeamDirection::Rightwards), 4);
    assert_eq!(get_energised_tiles(&parse_input("./.\n...\n..."), 0, 0, BeamDirection::Rightwards), 2);
    assert_eq!(get_energised_tiles(&parse_input("...\n.-.\n..."), 1, 0, BeamDirection::Downwards), 4);
    assert_eq!(get_energised_tiles(&parse_input("/-\\\n|.|\n\\-/"), 1, 0, BeamDirection::Rightwards), 8);
    assert_eq!(get_energised_tiles(&parse_input("/-\\\n|.|\n\\-/"), 1, 1, BeamDirection::Rightwards), 9);
}

#[test]
fn where_light_goes_on_from_a_tile() {
    assert_eq!(outgoing(MirrorType::Empty, BeamDirection::Upwards), (BeamDirection::Upwards, None));
    assert_eq!(outgoing(MirrorType::HorizontalSplit, BeamDirection::Leftwards), (BeamDirection::Leftwards, None));
    assert_eq!(
        outgoing(MirrorType::HorizontalSplit, BeamDirection::Downwards),
        (BeamDirection::Leftwards, Some(BeamDirection::Rightwards))
    );
    assert_eq!(
        outgoing(MirrorType::VerticalSplit, BeamDirection::Rightwards),
        (BeamDirection::Downwards, Some(BeamDirection::Upwards))
    );
    assert_eq!(outgoing(MirrorType::VerticalSplit, BeamDirection::Downwards), (BeamDirection::Downwards, None));
    assert_eq!(outgoing(MirrorType::RightMirror, BeamDirection::Rightwards), (BeamDirection::Upwards, None));
    assert_eq!(outgoing(MirrorType::RightMirror, BeamDirection::Leftwards), (BeamDirection::Downwards, None));
    assert_eq!(outgoing(MirrorType::RightMirror, BeamDirection::Upwards), (BeamDirection::Rightwards, None));
    assert_eq!(outgoing(MirrorType::RightMirror, BeamDirection::Downwards), (BeamDirection::Leftwards, None));
    assert_eq!(outgoing(MirrorType::LeftMirror, BeamDirection::Rightwards), (BeamDirection::Downwards, None));
    assert_eq!(outgoing(MirrorType::LeftMirror, BeamDirection::Leftwards), (BeamDirection::Upwards, None));
    assert_eq!(outgoing(MirrorType::LeftMirror, BeamDirection::Upwards), (BeamDirection::Leftwards, None));
    assert_eq!(outgoing(MirrorType::LeftMirror, BeamDirection::Downwards), (BeamDirection::Rightwards, None));
    assert_eq!(dir_index(BeamDirection::Upwards), 0);
    assert_eq!(dir_index(BeamDirection::Rightwards), 3);
}
