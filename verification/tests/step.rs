use particle_sim::integrate::BALL_RADIUS;
use particle_sim::collide::MAX_PARTICLES;
use particle_sim::integrate::DT_MAX;
use particle_sim::step::{
    accumulate_gravity, constrain_all, ready, reset, Config, CONTAINER_MAX, GRAVITY_MAX,
};
use particle_sim::vector::COORD_MAX;
use particle_sim::vector::Vec2;

const DT: i64 = 71_582_788;
const G: i64 = -42_090_679_501;
const S: i64 = 65_536;

fn points(raw: &[(i64, i64)]) -> Vec<Vec2> {
    raw.iter().map(|&(x, y)| Vec2::new(x, y)).collect()
}

#[test]
fn standard_configuration() {
    let cfg = Config::standard();
    assert!(cfg.is_valid());
    assert_eq!(cfg.ball_radius, BALL_RADIUS);
    assert_eq!(cfg.gravity, Vec2::new(0, G));
    assert_eq!(cfg.container_radius, 3 << 32);
    assert_eq!(cfg.substeps, 1);
}

#[test]
fn new_accepts_what_is_valid() {
    let cfg = Config::new(100, Vec2::new(1, -2), 1_000, 4).unwrap();
    assert_eq!(cfg.ball_radius, 100);
    assert_eq!(cfg.gravity, Vec2::new(1, -2));
    assert_eq!(cfg.container_radius, 1_000);
    assert_eq!(cfg.substeps, 4);
    assert!(Config::new(1, Vec2::zero(), 1, 1).is_some());
    assert!(Config::new(1 << 34, Vec2::new(GRAVITY_MAX, -GRAVITY_MAX), CONTAINER_MAX, u32::MAX)
        .is_some());
}

#[test]
fn new_refuses_what_is_not() {
    let g = Vec2::zero();
    assert!(Config::new(0, g, 1_000, 1).is_none());
    assert!(Config::new(-5, g, 1_000, 1).is_none());
    assert!(Config::new((1 << 34) + 1, g, 1 << 36, 1).is_none());
    assert!(Config::new(100, g, 99, 1).is_none());
    assert!(Config::new(100, g, CONTAINER_MAX + 1, 1).is_none());
    assert!(Config::new(100, Vec2::new(GRAVITY_MAX + 1, 0), 1_000, 1).is_none());
    assert!(Config::new(100, Vec2::new(0, -GRAVITY_MAX - 1), 1_000, 1).is_none());
    assert!(Config::new(100, g, 1_000, 0).is_none());
}

#[test]
fn gravity_is_added_to_every_acceleration() {
    let mut accels = points(&[(0, 0), (5, -5), (-GRAVITY_MAX, GRAVITY_MAX)]);
    accumulate_gravity(&mut accels, Vec2::new(-GRAVITY_MAX, GRAVITY_MAX));
    assert_eq!(
        accels,
        points(&[
            (-GRAVITY_MAX, GRAVITY_MAX),
            (5 - GRAVITY_MAX, GRAVITY_MAX - 5),
            (-2 * GRAVITY_MAX, 2 * GRAVITY_MAX),
        ])
    );
}

#[test]
fn every_position_is_constrained() {
    let mut ps = points(&[(30_000, -40_000), (1_000, -2_000), (0, 0)]);
    constrain_all(&mut ps, 26_000, 1_000);
    assert_eq!(ps, points(&[(15_000, -20_000), (1_000, -2_000), (0, 0)]));
}

#[test]
fn reset_clears_every_acceleration() {
    let mut accels = points(&[(1, 2), (-3, 4), (i64::MAX, i64::MIN)]);
    reset(&mut accels);
    assert_eq!(accels, points(&[(0, 0), (0, 0), (0, 0)]));
}

#[test]
fn tick_of_a_particle_at_the_origin() {
    let cfg = Config::standard();
    let mut pos = points(&[(0, 0)]);
    let mut last = points(&[(0, 0)]);
    let mut accels = points(&[(0, 0)]);
    cfg.step(&mut pos, &mut last, &mut accels, DT);
    assert_eq!(pos, points(&[(0, -11_691_855)]));
    assert_eq!(last, points(&[(0, 0)]));
    assert_eq!(accels, points(&[(0, 0)]));
}

#[test]
fn tick_with_a_negative_length_moves_like_a_positive_one() {
    let cfg = Config::standard();
    let mut pos = points(&[(0, 0)]);
    let mut last = points(&[(0, 0)]);
    let mut accels = points(&[(0, 0)]);
    cfg.step(&mut pos, &mut last, &mut accels, -DT);
    assert_eq!(pos, points(&[(0, -11_691_855)]));
}

#[test]
fn tick_pulls_a_stray_particle_back_first() {
    let cfg = Config::standard();
    let mut pos = points(&[(400_000 * S, -300_000 * S)]);
    let mut last = points(&[(400_000 * S, -300_000 * S)]);
    let mut accels = points(&[(0, 0)]);
    cfg.step(&mut pos, &mut last, &mut accels, DT);
    assert_eq!(last, points(&[(9_620_726_743, -7_215_545_057)]));
    assert_eq!(pos, points(&[(-6_972_946_514, 5_218_018_031)]));
    assert_eq!(accels, points(&[(0, 0)]));
}

#[test]
fn tick_adds_gravity_to_what_has_accumulated() {
    let cfg = Config::standard();
    let mut pos = points(&[(0, 0), (10_000 * S, 0)]);
    let mut last = pos.clone();
    let mut accels = points(&[(100 * S, 200 * S), (0, 0)]);
    cfg.step(&mut pos, &mut last, &mut accels, DT);
    assert_eq!(pos, points(&[(-1_062_625_098, -11_688_214), (1_717_986_918, -11_691_855)]));
    assert_eq!(last, points(&[(-531_313_459, 0), (1_186_673_459, 0)]));
    assert_eq!(accels, points(&[(0, 0), (0, 0)]));
}

#[test]
fn two_substeps_are_two_half_ticks() {
    let cfg = Config::new(BALL_RADIUS, Vec2::new(0, G), 3 << 32, 2).unwrap();
    let start_pos = points(&[(1_000 * S, 2_000 * S), (20_000 * S, 2_000 * S)]);
    let start_last = points(&[(900 * S, 2_100 * S), (20_000 * S, 2_000 * S)]);

    let mut pos = start_pos.clone();
    let mut last = start_last.clone();
    let mut accels = points(&[(0, 0), (0, 0)]);
    cfg.step(&mut pos, &mut last, &mut accels, 2 * DT);
    assert_eq!(pos, points(&[(-630_561_177, 82_889_235), (2_019_924_377, 95_996_435)]));
    assert_eq!(last, points(&[(-400_713_318, 112_826_545), (1_783_522_918, 119_380_145)]));

    let mut pos2 = start_pos.clone();
    let mut last2 = start_last.clone();
    let mut accels2 = points(&[(0, 0), (0, 0)]);
    cfg.substep(&mut pos2, &mut last2, &mut accels2, DT);
    assert_eq!(pos2, points(&[(-400_713_318, 112_826_545), (1_783_522_918, 119_380_145)]));
    assert_eq!(last2, points(&[(-170_865_459, 131_072_000), (1_547_121_459, 131_072_000)]));
    cfg.substep(&mut pos2, &mut last2, &mut accels2, DT);
    assert_eq!(pos2, pos);
    assert_eq!(last2, last);
    assert_eq!(accels2, accels);
}

#[test]
fn share_of_a_tick_is_rounded_toward_zero() {
    let cfg = Config::new(BALL_RADIUS, Vec2::new(0, G), 3 << 32, 3).unwrap();
    let mut pos = points(&[(0, 0)]);
    let mut last = points(&[(0, 0)]);
    let mut accels = points(&[(0, 0)]);
    cfg.step(&mut pos, &mut last, &mut accels, 3 * DT + 1);
    assert_eq!(pos, points(&[(0, -70_151_130)]));
    assert_eq!(last, points(&[(0, -35_075_565)]));
}

#[test]
fn many_ticks_keep_the_particles_in_reach() {
    let cfg = Config::standard();
    let limit = (cfg.container_radius - cfg.ball_radius) as i128;
    let mut pos = points(&[
        (0, 0),
        (0, 0),
        (1, 1),
        (-50_000 * S, 170_000 * S),
        (183_501 * S, 0),
        (7, -9),
    ]);
    let mut last = pos.clone();
    let mut accels = points(&[(0, 0); 6]);
    for _ in 0..400 {
        cfg.step(&mut pos, &mut last, &mut accels, DT);
        assert_eq!(pos.len(), 6);
        assert_eq!(last.len(), 6);
        assert_eq!(accels, points(&[(0, 0); 6]));
        for p in &last {
            let reach = limit + 6 * 2 * cfg.ball_radius as i128;
            assert!((p.x as i128).abs() <= reach && (p.y as i128).abs() <= reach);
        }
    }
}

#[test]
fn ready_names_the_states_a_tick_accepts() {
    let p = points(&[(1, 2), (3, 4)]);
    let zero = points(&[(0, 0), (0, 0)]);
    assert!(ready(&p, &p, &zero));
    assert!(ready(&points(&[(i64::MAX, i64::MIN), (0, 0)]), &p, &zero));
    assert!(ready(&p, &points(&[(COORD_MAX, -COORD_MAX), (0, 0)]), &zero));
    assert!(ready(&p, &p, &points(&[(GRAVITY_MAX, -GRAVITY_MAX), (0, 0)])));
    assert!(!ready(&p, &points(&[(COORD_MAX + 1, 0), (0, 0)]), &zero));
    assert!(!ready(&p, &points(&[(0, 0), (0, -COORD_MAX - 1)]), &zero));
    assert!(!ready(&p, &p, &points(&[(0, GRAVITY_MAX + 1), (0, 0)])));
    assert!(!ready(&p, &p, &points(&[(0, 0)])));
    assert!(!ready(&p, &points(&[(0, 0)]), &zero));
    assert!(!ready(&points(&[(0, 0)]), &p, &zero));
    let many = vec![Vec2::zero(); MAX_PARTICLES + 1];
    assert!(!ready(&many, &many, &many));
    assert!(ready(&Vec::new(), &Vec::new(), &Vec::new()));
}

#[test]
fn try_step_runs_a_tick_that_can_be_run() {
    let cfg = Config::standard();
    let mut pos = points(&[(400_000 * S, -300_000 * S)]);
    let mut last = points(&[(400_000 * S, -300_000 * S)]);
    let mut accels = points(&[(5, 5)]);
    assert!(cfg.try_step(&mut pos, &mut last, &mut accels, DT));
    assert_eq!(last, points(&[(9_620_726_743, -7_215_545_057)]));
    assert_eq!(pos, points(&[(-6_972_946_514, 5_218_018_031)]));
    assert_eq!(accels, points(&[(0, 0)]));
    assert!(ready(&pos, &last, &accels));
}

#[test]
fn try_step_leaves_alone_what_it_cannot_run() {
    let cfg = Config::standard();
    let start = points(&[(5, 5), (6, 6)]);

    let mut pos = start.clone();
    let mut last = points(&[(COORD_MAX + 1, 0), (0, 0)]);
    let mut accels = points(&[(0, 0), (0, 0)]);
    assert!(!cfg.try_step(&mut pos, &mut last, &mut accels, DT));
    assert_eq!(pos, start);
    assert_eq!(last, points(&[(COORD_MAX + 1, 0), (0, 0)]));

    let mut last = start.clone();
    let mut short = points(&[(0, 0)]);
    assert!(!cfg.try_step(&mut pos, &mut last, &mut short, DT));
    assert!(!cfg.try_step(&mut pos, &mut last, &mut accels, DT_MAX + 1));
    assert!(!cfg.try_step(&mut pos, &mut last, &mut accels, -DT_MAX - 1));
    assert_eq!(pos, start);
    assert_eq!(last, start);

    let broken = Config { ball_radius: 0, gravity: Vec2::zero(), container_radius: 10, substeps: 1 };
    assert!(!broken.try_step(&mut pos, &mut last, &mut accels, DT));
    assert_eq!(pos, start);
}

#[test]
fn eight_substeps_resolve_the_gain_of_gravity() {
    // An eighth of a sixtieth of a second: the exact gain is 182685.2 units.
    let cfg = Config::new(BALL_RADIUS, Vec2::new(0, G), 3 << 32, 8).unwrap();
    let mut pos = points(&[(0, 0)]);
    let mut last = points(&[(0, 0)]);
    let mut accels = points(&[(0, 0)]);
    cfg.substep(&mut pos, &mut last, &mut accels, DT / 8);
    assert_eq!(pos, points(&[(0, -182_685)]));
}

fn to_units(v: f64) -> i64 {
    (v * (1u64 << 32) as f64).round() as i64
}

fn to_real(v: i64) -> f64 {
    v as f64 / (1u64 << 32) as f64
}

#[test]
fn gravity_on_a_unit_acceleration() {
    let mut accels = vec![Vec2::new(to_units(1.0), to_units(2.0))];
    accumulate_gravity(&mut accels, Config::standard().gravity);
    assert_eq!(accels[0].x, to_units(1.0));
    assert!((to_real(accels[0].y) - (-7.8)).abs() < 1e-6);
}

#[test]
fn clamp_reaches_the_rim() {
    let cfg = Config::standard();
    let mut ps = vec![Vec2::new(to_units(1.9836), to_units(1.9836))];
    constrain_all(&mut ps, cfg.container_radius, cfg.ball_radius);
    let r = (to_real(ps[0].x).powi(2) + to_real(ps[0].y).powi(2)).sqrt();
    assert!((r - 2.8).abs() < 1e-6);
    assert!((to_real(ps[0].x) - to_real(ps[0].y)).abs() < 1e-9);
}

#[test]
fn overlapping_pair_at_rest_after_one_tick() {
    // Two particles a tenth of a unit either side of the origin, no
    // gravity: they part to 0.2 and carry on to 0.3.
    let cfg = Config::new(BALL_RADIUS, Vec2::zero(), 3 << 32, 1).unwrap();
    let mut pos = vec![Vec2::new(to_units(-0.1), 0), Vec2::new(to_units(0.1), 0)];
    let mut last = pos.clone();
    let mut accels = vec![Vec2::zero(), Vec2::zero()];
    cfg.step(&mut pos, &mut last, &mut accels, to_units(0.1));
    assert!((to_real(last[0].x) + 0.2).abs() < 1e-6 && (to_real(last[1].x) - 0.2).abs() < 1e-6);
    assert!((to_real(pos[0].x) + 0.3).abs() < 1e-6 && (to_real(pos[1].x) - 0.3).abs() < 1e-6);
    assert_eq!(pos[0].y, 0);
    assert_eq!(pos[1].y, 0);
}
