use particle_sim::integrate::{
    impulse, integrate, integrate_exempt, sim, try_sim, ACCEL_MAX, BALL_RADIUS, DT_MAX, ONE,
};
use particle_sim::vector::{Vec2, COORD_MAX};

/// A sixtieth of a second.
const DT: i64 = 71_582_788;
/// 9.8 downward.
const GRAVITY: Vec2 = Vec2 { x: 0, y: -42_090_679_501 };
const DIAMETER: i64 = 2 * BALL_RADIUS;

fn points(raw: &[(i64, i64)]) -> Vec<Vec2> {
    raw.iter().map(|&(x, y)| Vec2::new(x, y)).collect()
}

#[test]
fn impulse_is_acceleration_times_time_squared() {
    assert_eq!(impulse(ONE, ONE), ONE);
    assert_eq!(impulse(GRAVITY.y, DT), -11_691_855);
    assert_eq!(impulse(-GRAVITY.y, DT), 11_691_855);
    assert_eq!(impulse(-GRAVITY.y, -DT), 11_691_855);
    assert_eq!(impulse(-1, ONE - 1), 0);
    assert_eq!(impulse(0, DT_MAX), 0);
    assert_eq!(impulse(ACCEL_MAX, DT_MAX), 1 << 56);
}

#[test]
fn impulse_resolves_the_gain_of_a_short_step() {
    // A sixteenth of a tick: the exact gain is 45671.3 units.
    assert_eq!(impulse(GRAVITY.y, DT / 16), -45_671);
    let exact = GRAVITY.y as i128 * (DT / 16) as i128 * (DT / 16) as i128;
    let scale = (ONE as i128) * (ONE as i128);
    let got = impulse(GRAVITY.y, DT / 16) as i128 * scale;
    assert!((got - exact).abs() < scale);
}

#[test]
fn stock_radius_is_a_fifth_of_a_unit() {
    assert_eq!(BALL_RADIUS, (ONE as i128 * 2 / 10) as i64);
    assert_eq!(ONE, 1 << 32);
}

#[test]
fn particle_at_rest_stays_at_rest() {
    let mut pos = points(&[(1_234, -5_678)]);
    let mut last = pos.clone();
    let accels = points(&[(0, 0)]);
    for _ in 0..50 {
        sim(&mut pos, &mut last, &accels, DT);
        assert_eq!(pos, points(&[(1_234, -5_678)]));
        assert_eq!(last, points(&[(1_234, -5_678)]));
    }
}

#[test]
fn particle_keeps_its_velocity() {
    let mut pos = points(&[(5, 5)]);
    let mut last = points(&[(3, 8)]);
    integrate(&mut pos, &mut last, &points(&[(0, 0)]), 0, DIAMETER);
    assert_eq!(pos, points(&[(7, 2)]));
    assert_eq!(last, points(&[(5, 5)]));
}

#[test]
fn projectile_follows_the_triangular_numbers() {
    let mut pos = points(&[(0, 0)]);
    let mut last = points(&[(0, 0)]);
    let accels = vec![GRAVITY];
    let g = impulse(GRAVITY.y, DT);
    for k in 1..=40i64 {
        sim(&mut pos, &mut last, &accels, DT);
        assert_eq!(pos[0], Vec2::new(0, g * k * (k + 1) / 2));
        assert_eq!(last[0], Vec2::new(0, g * k * (k - 1) / 2));
    }
    assert_eq!(pos[0], Vec2::new(0, -9_587_321_100));
}

#[test]
fn projectile_after_five_steps() {
    let mut pos = points(&[(0, 0)]);
    let mut last = points(&[(0, 0)]);
    for _ in 0..5 {
        sim(&mut pos, &mut last, &vec![GRAVITY], DT);
    }
    assert_eq!(pos, points(&[(0, -175_377_825)]));
    assert_eq!(last, points(&[(0, -116_918_550)]));
}

#[test]
fn projectile_stays_within_a_unit_a_gain_of_the_exact_fall() {
    // One second of free fall in sixty steps: 4.98 units down.
    let mut pos = points(&[(0, 0)]);
    let mut last = points(&[(0, 0)]);
    let scale = (ONE as i128) * (ONE as i128);
    let gain = GRAVITY.y as i128 * DT as i128 * DT as i128;
    for k in 1..=60i128 {
        sim(&mut pos, &mut last, &vec![GRAVITY], DT);
        let t = k * (k + 1) / 2;
        let off = pos[0].y as i128 * scale - gain * t;
        assert!(off >= 0 && off < t * scale);
        assert_eq!(pos[0].x, 0);
    }
    assert_eq!(pos[0].y, -21_396_094_650);
    // The exact fall is 21_396_095_756.8 units: 1107 units more, which is
    // 2.6e-7 of a unit of length.
    assert!((pos[0].y as f64 / ONE as f64 - (-9.8 * 1830.0 / 3600.0)).abs() < 1e-6);
}

#[test]
fn collision_comes_before_the_update() {
    let mut pos = points(&[(0, 0), (655_360_000, 0)]);
    let mut last = pos.clone();
    let accels = vec![GRAVITY, Vec2::new(ONE, 0)];
    sim(&mut pos, &mut last, &accels, DT);
    assert_eq!(last, points(&[(-531_313_459, 0), (1_186_673_459, 0)]));
    assert_eq!(pos, points(&[(-1_062_626_918, -11_691_855), (1_719_179_964, 0)]));
}

#[test]
fn particles_apart_move_on_their_own() {
    let pos0 = points(&[(0, 0), (2 * ONE, 0), (0, 2 * ONE), (-2 * ONE, -2 * ONE)]);
    let last0 = points(&[(5, -5), (2 * ONE, 7), (0, 2 * ONE), (-2 * ONE + 9, -2 * ONE)]);
    let accels = points(&[(0, 0), (ONE, 0), (0, ONE), (-ONE, -ONE)]);
    let mut pos = pos0.clone();
    let mut last = last0.clone();
    sim(&mut pos, &mut last, &accels, DT);
    assert_eq!(last, pos0);
    for i in 0..4 {
        let expected = Vec2::new(
            2 * pos0[i].x - last0[i].x + impulse(accels[i].x, DT),
            2 * pos0[i].y - last0[i].y + impulse(accels[i].y, DT),
        );
        assert_eq!(pos[i], expected);
    }
}

#[test]
fn lengths_and_order_are_kept() {
    let start = points(&[(0, 0), (2 * ONE, 0), (0, 2 * ONE), (-2 * ONE, -2 * ONE)]);
    let mut pos = start.clone();
    let mut last = start.clone();
    let accels = points(&[(0, 0), (ONE, 0), (0, ONE), (-ONE, -ONE)]);
    sim(&mut pos, &mut last, &accels, ONE);
    assert_eq!(pos.len(), 4);
    assert_eq!(last, start);
    assert_eq!(pos, points(&[(0, 0), (3 * ONE, 0), (0, 3 * ONE), (-3 * ONE, -3 * ONE)]));
}

#[test]
fn empty_world_is_accepted() {
    let mut pos: Vec<Vec2> = Vec::new();
    let mut last: Vec<Vec2> = Vec::new();
    sim(&mut pos, &mut last, &Vec::new(), DT);
    assert!(pos.is_empty() && last.is_empty());
}

#[test]
fn largest_inputs_do_not_overflow() {
    let mut pos = points(&[(COORD_MAX, -COORD_MAX)]);
    let mut last = points(&[(-COORD_MAX, COORD_MAX)]);
    let accels = points(&[(ACCEL_MAX, -ACCEL_MAX)]);
    integrate(&mut pos, &mut last, &accels, DT_MAX, 1 << 35);
    assert_eq!(last, points(&[(COORD_MAX, -COORD_MAX)]));
    assert_eq!(pos, points(&[(3 * COORD_MAX + (1 << 56), -3 * COORD_MAX - (1 << 56))]));
}

#[test]
fn exempt_particle_keeps_its_previous_position() {
    let mut pos = points(&[(0, 0), (655_360_000, 0), (32_768_000_000, 0)]);
    let mut last = points(&[(655_360, 655_360), (655_360_000, 0), (32_702_464_000, 0)]);
    let accels = points(&[(0, 0), (0, 0), (0, 0)]);
    integrate_exempt(&mut pos, &mut last, &accels, &vec![true, false, true], DT, DIAMETER);
    assert_eq!(last, points(&[(655_360, 655_360), (1_186_673_459, 0), (32_702_464_000, 0)]));
    assert_eq!(
        pos,
        points(&[(-1_063_282_278, -655_360), (1_717_986_918, 0), (32_833_536_000, 0)])
    );
}

#[test]
fn no_exemption_is_the_plain_step() {
    let start_pos = points(&[(0, 0), (655_360_000, 0), (32_768_000_000, 0)]);
    let start_last = points(&[(655_360, 655_360), (655_360_000, 0), (32_702_464_000, 0)]);
    let accels = vec![GRAVITY, GRAVITY, GRAVITY];
    let mut pos = start_pos.clone();
    let mut last = start_last.clone();
    integrate_exempt(&mut pos, &mut last, &accels, &vec![false; 3], DT, DIAMETER);
    let mut pos2 = start_pos.clone();
    let mut last2 = start_last.clone();
    integrate(&mut pos2, &mut last2, &accels, DT, DIAMETER);
    assert_eq!(pos, pos2);
    assert_eq!(last, last2);
}

#[test]
fn try_sim_runs_what_is_in_range() {
    let mut pos = points(&[(0, 0)]);
    let mut last = points(&[(0, 0)]);
    assert!(try_sim(&mut pos, &mut last, &vec![GRAVITY], DT));
    assert_eq!(pos, points(&[(0, -11_691_855)]));
    assert_eq!(last, points(&[(0, 0)]));
}

#[test]
fn try_sim_keeps_lengths_and_values_of_what_is_not() {
    let start = points(&[(1, 2), (3, 4)]);
    let zero = points(&[(0, 0), (0, 0)]);
    let cases: Vec<(Vec<Vec2>, Vec<Vec2>, Vec<Vec2>, i64)> = vec![
        (start.clone(), start.clone(), points(&[(0, 0)]), DT),
        (start.clone(), points(&[(0, 0)]), zero.clone(), DT),
        (points(&[(COORD_MAX + 1, 0), (0, 0)]), start.clone(), zero.clone(), DT),
        (start.clone(), points(&[(0, -COORD_MAX - 1), (0, 0)]), zero.clone(), DT),
        (start.clone(), start.clone(), points(&[(ACCEL_MAX + 1, 0), (0, 0)]), DT),
        (start.clone(), start.clone(), zero.clone(), DT_MAX + 1),
        (start.clone(), start.clone(), zero.clone(), -DT_MAX - 1),
    ];
    for (pos0, last0, accels, dt) in cases {
        let mut pos = pos0.clone();
        let mut last = last0.clone();
        assert!(!try_sim(&mut pos, &mut last, &accels, dt));
        assert_eq!(pos, pos0);
        assert_eq!(last, last0);
    }
}
