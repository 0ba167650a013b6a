use aoc23::bricks::{Axis, Brick, Point3D};

fn brick(axis: Axis, x: i32, y: i32, z: i32, length: i32) -> Brick {
    Brick { axis, start: Point3D { x, y, z }, length }
}

/// The seven bricks of the small example, after they have come to rest.
fn settled() -> Vec<Brick> {
    vec![
        brick(Axis::Y, 1, 0, 1, 3),
        brick(Axis::X, 0, 0, 2, 3),
        brick(Axis::X, 0, 2, 2, 3),
        brick(Axis::Y, 0, 0, 3, 3),
        brick(Axis::Y, 2, 0, 3, 3),
        brick(Axis::X, 0, 1, 4, 3),
        brick(Axis::Z, 1, 1, 5, 2),
    ]
}

#[test]
fn points_move_along_an_axis() {
    let p = Point3D { x: 1, y: 2, z: 3 };
    assert_eq!(p.add_axis(Axis::X, 4), Point3D { x: 5, y: 2, z: 3 });
    assert_eq!(p.add_axis(Axis::Y, -2), Point3D { x: 1, y: 0, z: 3 });
    assert_eq!(p.add_axis(Axis::Z, -1), Point3D { x: 1, y: 2, z: 2 });
    assert_eq!(p.add_axis(Axis::Z, 0), p);
}

#[test]
fn brick_cubes_and_bottoms() {
    let lying = brick(Axis::X, 0, 1, 4, 3);
    assert_eq!(
        lying.get_bottom_points(),
        vec![Point3D { x: 0, y: 1, z: 4 }, Point3D { x: 1, y: 1, z: 4 }, Point3D { x: 2, y: 1, z: 4 }]
    );
    let upright = brick(Axis::Z, 1, 1, 5, 2);
    assert_eq!(upright.get_bottom_points(), vec![Point3D { x: 1, y: 1, z: 5 }]);
    assert_eq!(brick(Axis::Y, 0, 0, 1, 0).get_bottom_points(), vec![]);
    assert!(lying.contains_any_point(&[Point3D { x: 9, y: 9, z: 9 }, Point3D { x: 2, y: 1, z: 4 }]));
    assert!(!lying.contains_any_point(&[Point3D { x: 3, y: 1, z: 4 }, Point3D { x: 0, y: 1, z: 5 }]));
    assert!(!lying.contains_any_point(&[]));
    assert!(upright.contains_any_point(&[Point3D { x: 1, y: 1, z: 6 }]));
    assert!(!upright.contains_any_point(&[Point3D { x: 1, y: 1, z: 7 }]));
    assert!(!brick(Axis::X, 0, 0, 1, 0).contains_any_point(&[Point3D { x: 0, y: 0, z: 1 }]));
}

#[test]
fn supports_in_the_settled_example() {
    let b = settled();
    let counts: Vec<usize> = b.iter().map(|x| x.get_supporting_bricks(&b)).collect();
    assert_eq!(counts, vec![0, 1, 1, 2, 2, 2, 1]);
    assert!(b[1].is_supported_by(b[0]));
    assert!(b[2].is_supported_by(b[0]));
    assert!(b[3].is_supported_by(b[1]));
    assert!(b[3].is_supported_by(b[2]));
    assert!(!b[3].is_supported_by(b[0]));
    assert!(!b[3].is_supported_by(b[3]));
    assert!(b[6].is_supported_by(b[5]));
    assert!(!b[0].is_supported_by(b[1]));
}

#[test]
fn five_bricks_of_the_example_can_be_taken_away() {
    let b = settled();
    let free: Vec<bool> = b.iter().map(|x| x.can_disintegrate(&b)).collect();
    assert_eq!(free, vec![false, true, true, true, true, false, true]);
    assert_eq!(free.iter().filter(|f| **f).count(), 5);
}

#[test]
fn bricks_drop_only_when_nothing_is_below() {
    let b = settled();
    for x in &b {
        assert_eq!(x.move_down_if_possible(&b), (*x, false));
    }
    let high = brick(Axis::Z, 1, 1, 8, 2);
    assert_eq!(high.move_down_if_possible(&b), (brick(Axis::Z, 1, 1, 7, 2), true));
    let above = brick(Axis::Z, 1, 1, 7, 1);
    assert_eq!(above.move_down_if_possible(&b), (above, false));
    let ground = brick(Axis::X, 5, 5, 1, 2);
    assert_eq!(ground.move_down_if_possible(&b), (ground, false));
}

/// The seven bricks of the small example, as they are seen in the air.
fn snapshot() -> Vec<Brick> {
    vec![
        brick(Axis::Y, 1, 0, 1, 3),
        brick(Axis::X, 0, 0, 2, 3),
        brick(Axis::X, 0, 2, 3, 3),
        brick(Axis::Y, 0, 0, 4, 3),
        brick(Axis::Y, 2, 0, 5, 3),
        brick(Axis::X, 0, 1, 6, 3),
        brick(Axis::Z, 1, 1, 8, 2),
    ]
}

#[test]
fn bricks_fall_until_they_rest() {
    let mut b = snapshot();
    assert_eq!(aoc23::bricks::fall_bricks(&mut b), 5);
    assert_eq!(b, settled());
    assert_eq!(aoc23::bricks::fall_bricks(&mut b), 0);
    assert_eq!(b, settled());
}

#[test]
fn taking_a_brick_away_lets_others_fall() {
    let rest = settled();
    let mut total = 0;
    let mut each = Vec::new();
    for i in 0..rest.len() {
        let mut b = rest.clone();
        b.remove(i);
        let fell = aoc23::bricks::fall_bricks(&mut b);
        each.push(fell);
        total += fell;
    }
    assert_eq!(each, vec![6, 0, 0, 0, 0, 1, 0]);
    assert_eq!(total, 7);
}

#[test]
fn no_bricks_nothing_falls() {
    let mut none: Vec<Brick> = Vec::new();
    assert_eq!(aoc23::bricks::fall_bricks(&mut none), 0);
    let mut one = vec![brick(Axis::Z, 0, 0, 10, 3)];
    assert_eq!(aoc23::bricks::fall_bricks(&mut one), 1);
    assert_eq!(one, vec![brick(Axis::Z, 0, 0, 1, 3)]);
}

#[test]
fn counts_over_the_settled_example() {
    assert_eq!(aoc23::bricks::count_removable(&settled()), 5);
    assert_eq!(aoc23::bricks::chain_reaction(&settled()), 7);
    assert_eq!(aoc23::bricks::count_removable(&Vec::new()), 0);
    assert_eq!(aoc23::bricks::chain_reaction(&Vec::new()), 0);
    let tower = vec![brick(Axis::Z, 0, 0, 1, 2), brick(Axis::Z, 0, 0, 3, 2), brick(Axis::Z, 0, 0, 5, 1)];
    assert_eq!(aoc23::bricks::count_removable(&tower), 1);
    assert_eq!(aoc23::bricks::chain_reaction(&tower), 3);
}
