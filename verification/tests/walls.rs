use arena_physics::arena::{clamp_axis, reflect_axis, Arena, Bound};
use arena_physics::ball::Ball;
use arena_physics::fixed::LIMIT;
use arena_physics::frame::Frame;
use arena_physics::player::{Player, PLAYER_ACCEL, PLAYER_BOOST_MAX_ACCEL, PLAYER_RADIUS};
use arena_physics::vector::Vector;

fn field() -> Arena {
    Arena::new(0, 0, 1_500_000_000, 1_000_000_000)
}

fn still(delta: i64) -> Frame {
    Frame { delta, control: Vector::new(0, 0), boost: false }
}

fn far_player() -> Player {
    Player::new(100_000_000, 100_000_000)
}

#[test]
fn arena_new_keeps_fields() {
    let a = Arena::new(-5, 7, 11, 13);
    assert_eq!(a, Arena { x: -5, y: 7, width: 11, height: 13 });
}

#[test]
fn bound_from_copies_the_arena() {
    let b = Bound::from(&Arena::new(-5, 7, 11, 13));
    assert_eq!(b, Bound { x: -5, y: 7, width: 11, height: 13 });
}

#[test]
fn clamp_leaves_a_circle_inside_alone() {
    assert_eq!(clamp_axis(500, 30, 0, 1000), 500);
    assert_eq!(clamp_axis(30, 30, 0, 1000), 30);
    assert_eq!(clamp_axis(970, 30, 0, 1000), 970);
}

#[test]
fn clamp_snaps_to_the_walls() {
    assert_eq!(clamp_axis(971, 30, 0, 1000), 970);
    assert_eq!(clamp_axis(29, 30, 0, 1000), 30);
    assert_eq!(clamp_axis(5000, 30, -100, 1000), 870);
    assert_eq!(clamp_axis(-5000, 30, -100, 1000), -70);
    assert_eq!(clamp_axis(LIMIT, 30, 0, 1000), 970);
    assert_eq!(clamp_axis(-LIMIT, 30, 0, 1000), 30);
}

#[test]
fn clamp_between_walls_too_close_favours_the_near_wall() {
    assert_eq!(clamp_axis(50, 30, 0, 40), 30);
}

#[test]
fn reflect_leaves_a_circle_inside_alone() {
    assert_eq!(reflect_axis(500, 7, 35, 0, 1000), (500, 7));
    assert_eq!(reflect_axis(964, -7, 35, 0, 1000), (964, -7));
    assert_eq!(reflect_axis(36, 7, 35, 0, 1000), (36, 7));
}

#[test]
fn reflect_mirrors_at_the_far_wall() {
    assert_eq!(reflect_axis(970, 7, 35, 0, 1000), (960, -7));
    assert_eq!(reflect_axis(965, 7, 35, 0, 1000), (965, -7));
    assert_eq!(
        reflect_axis(1_466_600_000, 100_000_000, 35_000_000, 0, 1_500_000_000),
        (1_463_400_000, -100_000_000)
    );
}

#[test]
fn reflect_mirrors_at_the_near_wall() {
    assert_eq!(reflect_axis(30, -7, 35, 0, 1000), (40, 7));
    assert_eq!(reflect_axis(35, -7, 35, 0, 1000), (35, 7));
    assert_eq!(reflect_axis(-120, -7, 35, -100, 1000), (-10, 7));
}

#[test]
fn reflect_keeps_the_speed() {
    for vel in [0i64, 1, -1, 100_000_000, -100_000_000, LIMIT, -LIMIT] {
        for pos in [-50i64, 0, 35, 36, 500, 964, 965, 2000] {
            let (_, after) = reflect_axis(pos, vel, 35, 0, 1000);
            assert_eq!(after.abs(), vel.abs());
            if pos + 35 >= 1000 || pos - 35 <= 0 {
                assert_eq!(after, -vel);
            } else {
                assert_eq!(after, vel);
            }
        }
    }
}

#[test]
fn ball_at_the_wall_bounces_back_exactly() {
    let mut ball = Ball {
        x: 1_465_000_000,
        y: 500_000_000,
        xv: 100_000_000,
        yv: 0,
        radius: 35_000_000,
        id: 1,
        bound: Bound::from(&field()),
    };
    assert_eq!(ball.x + ball.radius, 1_500_000_000);
    let mut player = far_player();
    ball.update(&mut player, &still(11_289_600));
    assert_eq!(ball.xv, -99_678_905);
    let reached: i64 = 1_465_000_000 + 1_594_862;
    assert_eq!(ball.x, 2 * 1_500_000_000 - reached - 2 * 35_000_000);
    assert_eq!(ball.x, 1_463_405_138);
    assert_eq!(ball.y, 500_000_000);
    assert_eq!(ball.yv, 0);
    assert!(ball.x + ball.radius <= 1_500_000_000);
    assert_eq!(player, far_player());
}

#[test]
fn ball_at_the_wall_bounces_back_with_friction() {
    let mut ball = Ball {
        x: 1_465_000_000,
        y: 500_000_000,
        xv: 100_000_000,
        yv: 0,
        radius: 35_000_000,
        id: 1,
        bound: Bound::from(&field()),
    };
    let mut player = far_player();
    ball.update(&mut player, &still(11_760_000));
    assert_eq!(ball.xv, -99_665_549);
    assert_eq!(ball.x, 1_463_338_908);
}

#[test]
fn ball_in_a_corner_bounces_on_both_axes() {
    let mut ball = Ball {
        x: 35_000_000,
        y: 965_000_000,
        xv: -100_000_000,
        yv: 250_000_000,
        radius: 35_000_000,
        id: 1,
        bound: Bound::from(&field()),
    };
    let mut player = far_player();
    ball.update(&mut player, &still(11_760_000));
    assert_eq!(ball.x, 36_661_092);
    assert_eq!(ball.y, 960_847_269);
    assert_eq!(ball.xv, 99_665_549);
    assert_eq!(ball.yv, -249_163_873);
}

#[test]
fn ball_in_the_open_only_travels() {
    let mut ball = Ball {
        x: 700_000_000,
        y: 500_000_000,
        xv: 100_000_000,
        yv: -50_000_000,
        radius: 35_000_000,
        id: 1,
        bound: Bound::from(&field()),
    };
    let mut player = far_player();
    ball.update(&mut player, &still(7_056_000));
    assert_eq!(ball.x, 700_997_991);
    assert_eq!(ball.y, 499_501_005);
    assert_eq!(ball.xv, 99_799_195);
    assert_eq!(ball.yv, -49_899_597);
}

#[test]
fn player_new_is_at_rest() {
    let p = Player::new(12, -34);
    assert_eq!(
        p,
        Player {
            x: 12,
            y: -34,
            xv: 0,
            yv: 0,
            radius: PLAYER_RADIUS,
            accel: PLAYER_ACCEL,
            timer: 0,
            boost: false
        }
    );
    assert_eq!(PLAYER_RADIUS, 30_000_000);
    assert_eq!(PLAYER_ACCEL, 3_000_000_000);
    assert_eq!(PLAYER_BOOST_MAX_ACCEL, 6_000_000_000);
}

#[test]
fn player_follows_the_control_vector() {
    let mut p = Player::new(750_000_000, 500_000_000);
    let frame = Frame {
        delta: 11_760_000,
        control: Vector::new(30_000_000, 40_000_000),
        boost: false,
    };
    p.update(&field(), &frame);
    assert_eq!(
        p,
        Player {
            x: 750_281_250,
            y: 500_375_000,
            xv: 27_000_000,
            yv: 36_000_000,
            radius: 30_000_000,
            accel: 3_000_000_000,
            timer: 11_760_000,
            boost: false
        }
    );
}

#[test]
fn player_boost_doubles_the_acceleration() {
    let mut p = Player::new(750_000_000, 500_000_000);
    let frame = Frame {
        delta: 11_760_000,
        control: Vector::new(300_000_000, -400_000_000),
        boost: true,
    };
    p.update(&field(), &frame);
    assert_eq!(
        p,
        Player {
            x: 750_900_000,
            y: 498_800_000,
            xv: 54_000_000,
            yv: -72_000_000,
            radius: 30_000_000,
            accel: 6_000_000_000,
            timer: 11_760_000,
            boost: true
        }
    );
}

#[test]
fn player_boost_is_not_sticky() {
    let mut p = Player::new(750_000_000, 500_000_000);
    let frame = Frame {
        delta: 11_760_000,
        control: Vector::new(300_000_000, -400_000_000),
        boost: true,
    };
    p.update(&field(), &frame);
    assert!(p.boost);
    p.update(&field(), &Frame { boost: false, ..frame });
    assert!(!p.boost);
    assert_eq!(p.accel, PLAYER_ACCEL);
}

#[test]
fn player_with_the_pointer_at_the_centre_stays_in_place() {
    let mut p = Player { xv: 100_000_000, yv: -50_000_000, ..Player::new(750_000_000, 500_000_000) };
    let frame = Frame {
        delta: 11_760_000,
        control: Vector::new(0, 0),
        boost: false,
    };
    p.update(&field(), &frame);
    assert_eq!(p.x, 750_000_000);
    assert_eq!(p.y, 500_000_000);
    assert_eq!(p.xv, 135_000_000);
    assert_eq!(p.yv, -45_000_000);
}

#[test]
fn player_is_clamped_into_the_arena() {
    let frame = Frame {
        delta: 11_760_000,
        control: Vector::new(0, 0),
        boost: false,
    };
    let cases: [(i64, i64, i64, i64); 4] = [
        (5_000_000_000, -7_000_000_000, 1_470_000_000, 30_000_000),
        (-LIMIT, LIMIT, 30_000_000, 970_000_000),
        (10_000_000, 990_000_000, 30_000_000, 970_000_000),
        (1_490_000_000, 5_000_000, 1_470_000_000, 30_000_000),
    ];
    for (x, y, ex, ey) in cases {
        let mut p = Player::new(x, y);
        p.update(&field(), &frame);
        assert_eq!((p.x, p.y), (ex, ey));
        assert_eq!((p.xv, p.yv), (45_000_000, 0));
    }
}

#[test]
fn player_never_leaves_the_arena() {
    let arena = Arena::new(-200_000_000, 50_000_000, 400_000_000, 300_000_000);
    let spots: [i64; 7] = [-LIMIT, -1_000_000_000, -170_000_001, 0, 170_000_001, 1_000_000_000, LIMIT];
    let speeds: [i64; 3] = [-LIMIT, 0, LIMIT];
    for x in spots {
        for y in spots {
            for v in speeds {
                let mut p = Player { xv: v, yv: -v, ..Player::new(x, y) };
                let frame = Frame {
                    delta: 11_760_000,
                    control: Vector::new(-90_000_000, 90_000_000),
                    boost: true,
                };
                p.update(&arena, &frame);
                assert!(arena.x <= p.x - p.radius);
                assert!(p.x + p.radius <= arena.x + arena.width);
                assert!(arena.y <= p.y - p.radius);
                assert!(p.y + p.radius <= arena.y + arena.height);
            }
        }
    }
}

#[test]
fn player_is_held_in_an_arena_that_reaches_past_the_range() {
    let arena = Arena::new(LIMIT - 100_000_000, -LIMIT, LIMIT, LIMIT);
    for x in [-LIMIT, 0, LIMIT - 100_000_000, LIMIT] {
        for y in [-LIMIT, 0, LIMIT] {
            let mut p = Player::new(x, y);
            p.update(&arena, &still(11_760_000));
            assert!(arena.x as i128 <= p.x as i128 - p.radius as i128);
            assert!(p.x as i128 + p.radius as i128 <= arena.x as i128 + arena.width as i128);
            assert!(arena.y as i128 <= p.y as i128 - p.radius as i128);
            assert!(p.y as i128 + p.radius as i128 <= arena.y as i128 + arena.height as i128);
        }
    }
}

#[test]
fn first_step_from_rest() {
    let mut p = Player::new(750_000_000, 500_000_000);
    let frame = Frame { delta: 11_760_000, control: Vector::new(200_000_000, 0), boost: false };
    p.update(&field(), &frame);
    assert_eq!((p.xv, p.yv), (45_000_000, 0));
    assert_eq!((p.x, p.y), (750_750_000, 500_000_000));
    assert_eq!(p.timer, 11_760_000);
}

#[test]
fn boosted_step_at_half_pace() {
    let mut p = Player::new(750_000_000, 500_000_000);
    let frame = Frame { delta: 11_760_000, control: Vector::new(0, -40_000_000), boost: true };
    p.update(&field(), &frame);
    assert_eq!((p.xv, p.yv), (0, -90_000_000));
    assert_eq!((p.x, p.y), (750_000_000, 499_250_000));
    assert!(p.boost);
    assert_eq!(p.accel, PLAYER_BOOST_MAX_ACCEL);
}
