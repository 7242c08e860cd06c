use arena_physics::fixed::{
    during, fits, isqrt, max, min, minus, over, plus, quotient, saturate, times, LIMIT, SCALE,
    SECOND,
};
use arena_physics::friction::{damp, decay};
use arena_physics::power::{raise_by_ticks, FINE};

#[test]
fn scale_and_limit() {
    assert_eq!(SCALE, 1_000_000);
    assert_eq!(LIMIT, 1_000_000_000_000_000_000);
}

#[test]
fn saturate_keeps_what_fits() {
    assert_eq!(saturate(0), 0);
    assert_eq!(saturate(-17), -17);
    assert_eq!(saturate(LIMIT as i128), LIMIT);
    assert_eq!(saturate(-(LIMIT as i128)), -LIMIT);
}

#[test]
fn saturate_clips_at_the_limit() {
    assert_eq!(saturate(LIMIT as i128 + 1), LIMIT);
    assert_eq!(saturate(-(LIMIT as i128) - 1), -LIMIT);
    assert_eq!(saturate(i128::MAX), LIMIT);
    assert_eq!(saturate(i128::MIN), -LIMIT);
}

#[test]
fn quotient_rounds_towards_zero() {
    assert_eq!(quotient(7, 2), 3);
    assert_eq!(quotient(-7, 2), -3);
    assert_eq!(quotient(7, -2), -3);
    assert_eq!(quotient(-7, -2), 3);
    assert_eq!(quotient(0, -5), 0);
    assert_eq!(quotient(1, 1_000_000), 0);
    assert_eq!(quotient(-1, 1_000_000), 0);
}

#[test]
fn plus_and_minus_are_exact_within_the_limit() {
    assert_eq!(plus(1_500_000, 2_250_000), 3_750_000);
    assert_eq!(minus(1_500_000, 2_250_000), -750_000);
    assert_eq!(plus(LIMIT, -LIMIT), 0);
}

#[test]
fn plus_and_minus_saturate() {
    assert_eq!(plus(LIMIT, 1), LIMIT);
    assert_eq!(minus(-LIMIT, 1), -LIMIT);
    assert_eq!(plus(i64::MAX, i64::MAX), LIMIT);
    assert_eq!(minus(i64::MIN, i64::MAX), -LIMIT);
}

#[test]
fn times_multiplies_scalars() {
    assert_eq!(times(1_500_000, 2_500_000), 3_750_000);
    assert_eq!(times(-1_500_000, 2_500_000), -3_750_000);
    assert_eq!(times(30_000_000, 1_200_000), 36_000_000);
    assert_eq!(times(123_456_789, SCALE), 123_456_789);
    assert_eq!(times(123_456_789, 0), 0);
}

#[test]
fn times_rounds_towards_zero() {
    assert_eq!(times(3, 333_333), 0);
    assert_eq!(times(-3, 333_333), 0);
    assert_eq!(times(1_000_001, 999_999), 999_999);
    assert_eq!(times(-1_000_001, 999_999), -999_999);
}

#[test]
fn times_saturates() {
    assert_eq!(times(LIMIT, 2_000_000), LIMIT);
    assert_eq!(times(-LIMIT, 2_000_000), -LIMIT);
    assert_eq!(times(i64::MIN, i64::MIN), LIMIT);
    assert_eq!(times(i64::MIN, i64::MAX), -LIMIT);
}

#[test]
fn over_divides_scalars() {
    assert_eq!(over(1_000_000, 3_000_000), 333_333);
    assert_eq!(over(-1_000_000, 3_000_000), -333_333);
    assert_eq!(over(1_000_000, -3_000_000), -333_333);
    assert_eq!(over(200_000_000, 57_000_000), 3_508_771);
    assert_eq!(over(80_000_000, 80_000_000), SCALE);
    assert_eq!(over(LIMIT, 1), LIMIT);
}

#[test]
fn over_a_zero_divisor_saturates() {
    assert_eq!(over(5, 0), LIMIT);
    assert_eq!(over(-5, 0), -LIMIT);
    assert_eq!(over(0, 0), 0);
}

#[test]
fn isqrt_is_the_floor_of_the_root() {
    assert_eq!(isqrt(0), 0);
    assert_eq!(isqrt(1), 1);
    assert_eq!(isqrt(3), 1);
    assert_eq!(isqrt(4), 2);
    assert_eq!(isqrt(24), 4);
    assert_eq!(isqrt(25), 5);
    assert_eq!(isqrt(26), 5);
    assert_eq!(isqrt(2_000_000_000_000), 1_414_213);
    assert_eq!(isqrt(8_000_000_000_000_000_000_000_000_000_000_000_000), 2_828_427_124_746_190_097);
    assert_eq!(isqrt(u128::MAX), u64::MAX);
}

#[test]
fn isqrt_brackets_its_argument() {
    let mut n: u128 = 1;
    while n < u128::MAX / 7 {
        let r: u128 = isqrt(n) as u128;
        assert!(r * r <= n);
        assert!((r + 1) * (r + 1) > n);
        n = n * 7 + 3;
    }
}

#[test]
fn max_and_min_pick_a_side() {
    assert_eq!(max(3, 9), 9);
    assert_eq!(max(9, 3), 9);
    assert_eq!(max(-4, -4), -4);
    assert_eq!(min(3, 9), 3);
    assert_eq!(min(9, 3), 3);
    assert_eq!(min(-4, -4), -4);
}

#[test]
fn damp_keeps_a_share() {
    assert_eq!(FINE, 1_000_000_000_000);
    assert_eq!(damp(100_000_000, 996_655_000_000), 99_665_500);
    assert_eq!(damp(-100_000_000, 996_655_000_000), -99_665_500);
    assert_eq!(damp(100_000_000, 900_000_000_000), 90_000_000);
    assert_eq!(damp(100_000_000, 0), 0);
    assert_eq!(damp(123_456_789, 900_000_000_000), 111_111_110);
    assert_eq!(damp(3, 333_333_333_333), 0);
}

#[test]
fn damp_by_one_changes_nothing() {
    for v in [0, 1, -1, 123_456_789, -987_654_321_987, LIMIT, -LIMIT] {
        assert_eq!(damp(v, FINE as i64), v);
    }
}

fn ticks_of(exponent: i64) -> u128 {
    if exponent <= 0 {
        0
    } else {
        (exponent as u128 * 0x1_0000_0000) / 1_000_000
    }
}

fn share_product(a: i64, b: i64) -> i64 {
    ((a as u128 * b as u128 + FINE - 1) / FINE) as i64
}

#[test]
fn damping_twice_is_damping_by_the_product() {
    assert_eq!(damp(damp(123_456_789, 900_000_000_000), 996_655_426_635), 110_739_490);
    assert_eq!(share_product(900_000_000_000, 996_655_426_635), 896_989_883_972);
    assert_eq!(damp(123_456_789, 896_989_883_972), 110_739_490);
}

#[test]
fn damping_composes_within_tolerance() {
    let velocities: [i64; 8] =
        [0, 1, -1, 999_999, 123_456_789, -987_654_321_987, LIMIT, -LIMIT];
    let shares: [i64; 7] = [
        0,
        1,
        333_333_333_333,
        777_777_777_777,
        900_000_000_000,
        996_655_426_635,
        1_000_000_000_000,
    ];
    for v in velocities {
        for a in shares {
            for b in shares {
                let twice: i128 = damp(damp(v, a), b) as i128;
                let once: i128 = damp(v, share_product(a, b)) as i128;
                let tolerance: i128 = (v as i128).abs() / (FINE as i128) + 2;
                assert!((twice - once).abs() <= tolerance);
            }
        }
    }
}

#[test]
fn damping_is_odd() {
    for v in [1i64, 999_999, 123_456_789, 987_654_321_987, LIMIT] {
        for share in [0i64, 1, 333_333_333_333, 996_655_426_635, 1_000_000_000_000] {
            assert_eq!(damp(-v, share), -damp(v, share));
        }
    }
}

#[test]
fn raise_to_whole_powers() {
    assert_eq!(raise_by_ticks(900_000, ticks_of(0)), 1_000_000_000_000);
    assert_eq!(raise_by_ticks(900_000, ticks_of(SCALE)), 900_000_000_000);
    assert_eq!(raise_by_ticks(900_000, ticks_of(2 * SCALE)), 810_000_000_000);
    assert_eq!(raise_by_ticks(500_000, ticks_of(3 * SCALE)), 125_000_000_000);
    assert_eq!(raise_by_ticks(990_000, ticks_of(100 * SCALE)), 366_032_341_305);
}

#[test]
fn raise_to_fractional_powers() {
    assert_eq!(raise_by_ticks(900_000, ticks_of(500_000)), 948_683_298_051);
    assert_eq!(raise_by_ticks(250_000, ticks_of(500_000)), 500_000_000_000);
    assert_eq!(raise_by_ticks(810_000, ticks_of(1_500_000)), 729_000_000_000);
    assert_eq!(raise_by_ticks(123_456, ticks_of(654_321)), 254_423_577_669);
    assert_eq!(raise_by_ticks(1, ticks_of(1)), 999_986_187_703);
}

#[test]
fn raise_at_the_ends() {
    assert_eq!(raise_by_ticks(0, ticks_of(0)), 1_000_000_000_000);
    assert_eq!(raise_by_ticks(0, ticks_of(5)), 0);
    assert_eq!(raise_by_ticks(SCALE, ticks_of(12_345_678)), 1_000_000_000_000);
    assert_eq!(raise_by_ticks(SCALE, ticks_of(i64::MAX)), 1_000_000_000_000);
    assert_eq!(raise_by_ticks(900_000, ticks_of(-1)), 1_000_000_000_000);
    assert_eq!(raise_by_ticks(900_000, ticks_of(i64::MIN)), 1_000_000_000_000);
    assert_eq!(raise_by_ticks(999_999, ticks_of(10_000_000_000_000)), 45_899_767);
    assert_eq!(raise_by_ticks(900_000, ticks_of(i64::MAX)), 9);
}

#[test]
fn raise_follows_the_real_power() {
    let bases: [i64; 8] = [1, 1_000, 100_000, 500_000, 900_000, 990_000, 999_999, SCALE];
    let mut e: i64 = 1;
    while e < 400_000_000 {
        for base in bases {
            let got: f64 = raise_by_ticks(base, ticks_of(e)) as f64 / 1e12;
            let want: f64 = (base as f64 / 1e6).powf(e as f64 / 1e6);
            assert!(want - 1e-11 <= got && got <= want + 4e-9);
        }
        e = e + e / 3 + 7;
    }
}

#[test]
fn decay_over_a_frame() {
    assert_eq!(decay(900_000, 60_000_000, 11_760_000), 900_000_000_000);
    assert_eq!(decay(990_000, 20_000_000, 11_760_000), 996_655_493_433);
    assert_eq!(decay(990_000, 20_000_000, 11_289_600), 996_789_058_682);
    assert_eq!(decay(990_000, 20_000_000, 7_056_000), 997_991_951_679);
    assert_eq!(decay(990_000, 20_000_000, 705_600_000), 817_906_937_603);
    assert_eq!(decay(900_000, 60_000_000, 705_600_000), 1_797_010_305);
}

#[test]
fn decay_follows_the_real_power() {
    let ball: f64 = decay(990_000, 20_000_000, 11_760_000) as f64 / 1e12;
    assert!((ball - 0.99f64.powf(1.0 / 3.0)).abs() < 1e-10);
    let player: f64 = decay(900_000, 60_000_000, 11_760_000) as f64 / 1e12;
    assert!((player - 0.9).abs() < 1e-12);
    assert_eq!(damp(100_000_000, decay(990_000, 20_000_000, 11_760_000)), 99_665_549);
}

#[test]
fn decay_without_time_keeps_everything() {
    assert_eq!(decay(900_000, 60_000_000, 0), 1_000_000_000_000);
    assert_eq!(decay(900_000, 60_000_000, -5), 1_000_000_000_000);
    assert_eq!(decay(0, 60_000_000, 0), 1_000_000_000_000);
}

#[test]
fn friction_over_two_frames_is_friction_over_their_sum() {
    let velocities: [i64; 6] = [0, 999_999, 123_456_789, -987_654_321_987, 100_000_000, -50_000_000];
    let spans: [i64; 6] = [0, 1_000, 4_000_000, 11_760_000, 23_520_000, 176_400_000];
    for v in velocities {
        for first in spans {
            for second in spans {
                for (base, rate) in [(900_000i64, 60_000_000i64), (990_000, 20_000_000)] {
                    let twice: i128 =
                        damp(damp(v, decay(base, rate, first)), decay(base, rate, second)) as i128;
                    let once: i128 = damp(v, decay(base, rate, first + second)) as i128;
                    let tolerance: i128 = (v as i128).abs() / 1_000_000_000 + 2;
                    assert!((twice - once).abs() <= tolerance);
                }
            }
        }
    }
}

#[test]
fn fits_tells_the_storable_range() {
    assert!(fits(0));
    assert!(fits(LIMIT));
    assert!(fits(-LIMIT));
    assert!(!fits(LIMIT + 1));
    assert!(!fits(-LIMIT - 1));
    assert!(!fits(i64::MAX));
    assert!(!fits(i64::MIN));
}

#[test]
fn raise_never_gives_nothing_of_something() {
    for base in [1i64, 2, 1_000, 500_000, 900_000, 990_000, 999_999, SCALE] {
        for e in [1i64, 999_999, SCALE, 137 * SCALE, 1_000_000_000_000, i64::MAX] {
            let r: i64 = raise_by_ticks(base, ticks_of(e));
            assert!(0 < r && r <= FINE as i64);
        }
    }
}

#[test]
fn raise_never_grows_with_the_exponent() {
    for base in [0i64, 1, 1_000, 500_000, 900_000, 990_000, 999_999, SCALE] {
        let mut last: i64 = raise_by_ticks(base, ticks_of(-3));
        let mut e: i64 = 0;
        while e < 3_000_000 {
            let next: i64 = raise_by_ticks(base, ticks_of(e));
            assert!(next <= last);
            last = next;
            e = e + 997;
        }
        let mut e: i64 = 499_900;
        while e < 500_100 {
            let next: i64 = raise_by_ticks(base, ticks_of(e + 1));
            assert!(next <= raise_by_ticks(base, ticks_of(e)));
            e = e + 1;
        }
    }
}

#[test]
fn decay_never_grows_with_the_frame() {
    let mut last: i64 = FINE as i64;
    let mut delta: i64 = 0;
    while delta < 200_000_000 {
        let share: i64 = decay(990_000, 20_000_000, delta);
        assert!(0 < share && share <= last);
        last = share;
        delta = delta + 37_003;
    }
}

#[test]
fn during_a_frame() {
    assert_eq!(SECOND, 705_600_000);
    assert_eq!(during(3_000_000_000, 11_760_000), 50_000_000);
    assert_eq!(during(-6_000_000_000, 11_760_000), -100_000_000);
    assert_eq!(during(100_000_000, SECOND / 2), 50_000_000);
    assert_eq!(during(60_000_000, 11_760_000), SCALE);
    assert_eq!(during(-1, SECOND), -1);
    assert_eq!(during(1, SECOND - 1), 0);
    assert_eq!(during(123_456_789, 0), 0);
    assert_eq!(during(i64::MAX, i64::MAX), LIMIT);
    assert_eq!(during(i64::MIN, i64::MAX), -LIMIT);
}

#[test]
fn usual_frame_rates_last_whole_ticks() {
    for rate in [24i64, 25, 30, 48, 50, 60, 90, 100, 120, 144, 240] {
        assert_eq!(SECOND % rate, 0);
    }
}
