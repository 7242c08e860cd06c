use arena_physics::fixed::SCALE;
use arena_physics::vector::Vector;

#[test]
fn vector_new_keeps_components() {
    let v = Vector::new(3, -4);
    assert_eq!(v.x, 3);
    assert_eq!(v.y, -4);
    assert_eq!(v, Vector { x: 3, y: -4 });
}

#[test]
fn length_of_a_right_triangle() {
    assert_eq!(Vector::new(3_000_000, 4_000_000).length(), 5_000_000);
    assert_eq!(Vector::new(-3_000_000, 4_000_000).length(), 5_000_000);
    assert_eq!(Vector::new(0, 0).length(), 0);
    assert_eq!(Vector::new(0, -7).length(), 7);
}

#[test]
fn length_rounds_down() {
    assert_eq!(Vector::new(1_000_000, 1_000_000).length(), 1_414_213);
    assert_eq!(Vector::new(1, 1).length(), 1);
}

#[test]
fn length_of_the_longest_vector() {
    assert_eq!(Vector::new(i64::MIN, i64::MIN).length(), 13_043_817_825_332_782_212);
}

#[test]
fn direction_has_length_one() {
    assert_eq!(Vector::new(3_000_000, 4_000_000).direction(), Vector { x: 600_000, y: 800_000 });
    assert_eq!(Vector::new(-65_000_000, 0).direction(), Vector { x: -SCALE, y: 0 });
    assert_eq!(Vector::new(0, 12).direction(), Vector { x: 0, y: SCALE });
    assert_eq!(Vector::new(-1_000_000, 1_000_000).direction(), Vector { x: -707_107, y: 707_107 });
}

#[test]
fn direction_of_the_zero_vector_is_the_x_axis() {
    assert_eq!(Vector::new(0, 0).direction(), Vector { x: SCALE, y: 0 });
}

#[test]
fn direction_components_stay_within_one() {
    let samples: [i64; 7] = [i64::MIN, -5_000_000_000, -1, 0, 1, 77, i64::MAX];
    for x in samples {
        for y in samples {
            let u = Vector::new(x, y).direction();
            assert!(-SCALE <= u.x && u.x <= SCALE);
            assert!(-SCALE <= u.y && u.y <= SCALE);
        }
    }
}

#[test]
fn stretched_has_the_length_asked_for() {
    assert_eq!(
        Vector::new(3_000_000, 4_000_000).stretched(3_000_000_000),
        Vector { x: 1_800_000_000, y: 2_400_000_000 }
    );
    assert_eq!(Vector::new(0, -40_000_000).stretched(6_000_000_000), Vector { x: 0, y: -6_000_000_000 });
    assert_eq!(Vector::new(-5, 0).stretched(77), Vector { x: -77, y: 0 });
    assert_eq!(Vector::new(3, 4).stretched(-10), Vector { x: -6, y: -8 });
    assert_eq!(Vector::new(1, 1).stretched(1_000_000), Vector { x: 1_000_000, y: 1_000_000 });
}

#[test]
fn stretched_zero_vector_points_along_x() {
    assert_eq!(Vector::new(0, 0).stretched(77), Vector { x: 77, y: 0 });
    assert_eq!(Vector::new(0, 0).stretched(-3), Vector { x: -3, y: 0 });
}

#[test]
fn stretched_agrees_with_direction_at_length_one() {
    for (x, y) in [(3i64, 4i64), (-1_000_000, 1_000_000), (0, 12), (i64::MAX, i64::MIN), (7, -9)] {
        assert_eq!(Vector::new(x, y).stretched(SCALE), Vector::new(x, y).direction());
    }
}

#[test]
fn component_along_a_line() {
    let line = Vector::new(3_000_000, 4_000_000);
    assert_eq!(line.component_of(&Vector::new(10_000_000, 5_000_000)), 10_000_000);
    assert_eq!(line.component_of(&Vector::new(-4_000_000, 3_000_000)), 0);
    assert_eq!(Vector::new(-65_000_000, 0).component_of(&Vector::new(-57, 0)), 57);
    assert_eq!(Vector::new(0, 0).component_of(&Vector::new(7, 9)), 7);
    assert_eq!(Vector::new(1, 1).component_of(&Vector::new(1, 0)), 1);
}
