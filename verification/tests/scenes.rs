use arena_physics::arena::{Arena, Bound};
use arena_physics::ball::{Ball, BALL_SPEED};
use arena_physics::game::GameState;
use arena_physics::vector::Vector;
use arena_physics::scene::{
    get_scale, governing_side, halve, project, render, round, size, Disc, Rect, ASPECT, ZOOM,
};

#[test]
fn scene_constants() {
    assert_eq!(ZOOM, 1_000_000_000);
    assert_eq!(ASPECT, 562_500);
}

#[test]
fn scale_follows_the_governing_side() {
    assert_eq!(get_scale(1_920_000_000, 1_080_000_000), 1_080_000);
    assert_eq!(get_scale(1_280_000_000, 720_000_000), 720_000);
    assert_eq!(get_scale(800_000_000, 600_000_000), 600_000);
    assert_eq!(get_scale(1_000_000_000, 100_000_000), 562_500);
    assert_eq!(get_scale(1_001_000_000, 333_000_000), 563_062);
}

#[test]
fn halve_rounds_towards_zero() {
    assert_eq!(halve(800_000_000), 400_000_000);
    assert_eq!(halve(7), 3);
    assert_eq!(halve(-7), -3);
    assert_eq!(halve(0), 0);
}

#[test]
fn round_goes_to_the_nearest_whole() {
    assert_eq!(round(1_499_999), 1_000_000);
    assert_eq!(round(1_500_000), 2_000_000);
    assert_eq!(round(-1_500_000), -2_000_000);
    assert_eq!(round(-1_499_999), -1_000_000);
    assert_eq!(round(499_999), 0);
    assert_eq!(round(-500_000), -1_000_000);
    assert_eq!(round(844_593_000), 845_000_000);
    assert_eq!(round(3_000_000), 3_000_000);
}

#[test]
fn governing_side_of_a_viewport() {
    assert_eq!(governing_side(800_000_000, 600_000_000), 600_000_000);
    assert_eq!(governing_side(1_920_000_000, 1_080_000_000), 1_080_000_000);
    assert_eq!(governing_side(1_001_000_000, 333_000_000), 563_062_500);
    assert_eq!(governing_side(0, -5), 0);
}

#[test]
fn size_on_the_screen() {
    assert_eq!(size(35_000_000, 600_000_000), 21_000_000);
    assert_eq!(size(1_500_000_000, 563_062_500), 844_593_750);
    assert_eq!(size(-1_500_000_000, 563_062_500), -844_593_750);
    assert_eq!(size(1, 999_999_999), 0);
    assert_eq!(size(i64::MAX, i64::MAX), 1_000_000_000_000_000_000);
}

#[test]
fn project_follows_the_focus() {
    assert_eq!(project(0, 750_000_000, 600_000_000, 800_000_000), -50_000_000);
    assert_eq!(project(0, 500_000_000, 600_000_000, 600_000_000), 0);
    assert_eq!(project(328_000_000, 750_000_000, 600_000_000, 800_000_000), 146_800_000);
    assert_eq!(project(750_000_000, 750_000_000, 600_000_000, 800_000_000), 400_000_000);
    assert_eq!(project(0, 750_000_000, 563_062_500, 1_001_000_001), 78_203_125);
}

#[test]
fn render_lays_out_a_frame() {
    let mut state = GameState::new();
    let bound = Bound::from(&Arena::new(0, 0, 1_500_000_000, 1_000_000_000));
    state.ball.push(Ball::spawn(BALL_SPEED, bound, Vector::new(1_000_000, 0), 200_000, 300_000, 400_000));
    state.ball.push(Ball::spawn(BALL_SPEED, bound, Vector::new(0, 1_000_000), 0, 0, 1));
    let scene = render(&state, 800_000_000, 600_000_000);
    assert_eq!(
        scene.arena,
        Rect { x: -50_000_000, y: 0, width: 900_000_000, height: 600_000_000 }
    );
    assert_eq!(scene.player, Disc { x: 400_000_000, y: 300_000_000, radius: 18_000_000 });
    assert!(!scene.boost);
    assert_eq!(
        scene.balls,
        vec![
            Disc { x: 146_800_000, y: 188_400_000, radius: 21_000_000 },
            Disc { x: -29_000_000, y: 21_000_000, radius: 21_000_000 },
        ]
    );
}

#[test]
fn render_marks_a_boost() {
    let mut state = GameState::new();
    state.player.boost = true;
    let scene = render(&state, 1_920_000_000, 1_080_000_000);
    assert!(scene.boost);
    assert!(scene.balls.is_empty());
    assert_eq!(scene.player, Disc { x: 960_000_000, y: 540_000_000, radius: 32_400_000 });
    assert_eq!(
        scene.arena,
        Rect { x: 150_000_000, y: 0, width: 1_620_000_000, height: 1_080_000_000 }
    );
}
