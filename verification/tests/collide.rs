use particle_sim::collide::{collide, resolve};
use particle_sim::pair::push;
use particle_sim::grid::SpatialIndex;
use particle_sim::vector::Vec2;

const DIAMETER: i64 = 26_214;

fn points(raw: &[(i64, i64)]) -> Vec<Vec2> {
    raw.iter().map(|&(x, y)| Vec2::new(x, y)).collect()
}

fn distance_squared(a: Vec2, b: Vec2) -> i64 {
    (a.x - b.x) * (a.x - b.x) + (a.y - b.y) * (a.y - b.y)
}

#[test]
fn push_is_nothing_for_particles_apart() {
    assert_eq!(push(Vec2::new(DIAMETER, 0), DIAMETER), Vec2::zero());
    assert_eq!(push(Vec2::new(-30_000, 40_000), DIAMETER), Vec2::zero());
}

#[test]
fn push_is_half_the_penetration() {
    assert_eq!(push(Vec2::new(10_000, 0), DIAMETER), Vec2::new(8_107, 0));
    assert_eq!(push(Vec2::new(-3_000, 4_000), DIAMETER), Vec2::new(-6_364, 8_485));
    assert_eq!(push(Vec2::new(1, 1), DIAMETER), Vec2::new(9_267, 9_267));
    assert_eq!(push(Vec2::new(1, 0), 3), Vec2::new(1, 0));
    assert_eq!(push(Vec2::new(2, 2), 3), Vec2::zero());
}

#[test]
fn coincident_particles_part_along_the_first_axis() {
    assert_eq!(push(Vec2::zero(), DIAMETER), Vec2::new(13_107, 0));
    assert_eq!(push(Vec2::zero(), 1), Vec2::zero());
}

#[test]
fn overlapping_pair_ends_one_diameter_apart() {
    let mut ps = points(&[(0, 0), (10_000, 0)]);
    collide(&mut ps, DIAMETER);
    assert_eq!(ps, points(&[(-8_107, 0), (18_107, 0)]));
    assert_eq!(ps[1].x - ps[0].x, DIAMETER);
    assert_eq!(ps[0].x + ps[1].x, 10_000);
}

#[test]
fn oblique_pair_is_separated_about_its_midpoint() {
    let a = Vec2::new(1_000, -2_000);
    let b = Vec2::new(4_000, -6_000);
    let mut ps = vec![a, b];
    collide(&mut ps, DIAMETER);
    assert_eq!(ps[0].x + ps[1].x, a.x + b.x);
    assert_eq!(ps[0].y + ps[1].y, a.y + b.y);
    let d2 = distance_squared(ps[0], ps[1]);
    assert!(d2 >= (DIAMETER - 3) * (DIAMETER - 3));
    assert!(d2 <= (DIAMETER + 3) * (DIAMETER + 3));
}

#[test]
fn pairs_apart_are_left_alone() {
    let start = points(&[(0, 0), (26_214, 0), (0, 26_214), (-40_000, -40_000)]);
    let mut ps = start.clone();
    collide(&mut ps, DIAMETER);
    assert_eq!(ps, start);
}

#[test]
fn three_particles_are_resolved_in_rising_order() {
    let mut ps = points(&[(0, 0), (10_000, 0), (5_000, 8_000)]);
    collide(&mut ps, DIAMETER);
    assert_eq!(ps, points(&[(-12_741, -2_828), (21_947, -4_908), (5_794, 15_736)]));
}

#[test]
fn empty_and_single_are_unchanged() {
    let mut none: Vec<Vec2> = Vec::new();
    collide(&mut none, DIAMETER);
    assert!(none.is_empty());
    let mut one = points(&[(5, -5)]);
    collide(&mut one, DIAMETER);
    assert_eq!(one, points(&[(5, -5)]));
}

#[test]
fn coincident_pair_is_separated() {
    let mut ps = points(&[(100, 100), (100, 100)]);
    collide(&mut ps, DIAMETER);
    assert_eq!(ps, points(&[(13_207, 100), (-13_007, 100)]));
}

#[test]
fn pass_keeps_the_sum_of_positions() {
    let start = points(&[(0, 0), (9_000, 1_000), (-4_000, 7_000), (3_000, -8_000), (500, 500)]);
    let mut ps = start.clone();
    collide(&mut ps, DIAMETER);
    let sum = |v: &Vec<Vec2>| v.iter().fold((0, 0), |s, p| (s.0 + p.x, s.1 + p.y));
    assert_eq!(sum(&ps), sum(&start));
    assert_eq!(ps.len(), start.len());
}

#[test]
fn resolve_takes_its_pairs_from_the_index() {
    // The index was built when the two particles were far apart, so the
    // pair is not proposed although the positions now overlap.
    let far = points(&[(0, 0), (100_000, 0)]);
    let index = SpatialIndex::build(&far, DIAMETER);
    let mut ps = points(&[(0, 0), (10_000, 0)]);
    resolve(&mut ps, &index, DIAMETER);
    assert_eq!(ps, points(&[(0, 0), (10_000, 0)]));

    let near = SpatialIndex::build(&ps, DIAMETER);
    resolve(&mut ps, &near, DIAMETER);
    assert_eq!(ps, points(&[(-8_107, 0), (18_107, 0)]));
}

#[test]
fn resolved_pairs_are_one_diameter_apart() {
    let diffs = [(1, 0), (0, -1), (1, 1), (-7, 3), (26_213, 0), (18_535, -18_535), (-1, 26_000)];
    for (x, y) in diffs {
        let c = push(Vec2::new(x, y), DIAMETER);
        let d = Vec2::new(x + 2 * c.x, y + 2 * c.y);
        let n = d.x * d.x + d.y * d.y;
        assert!(n >= (DIAMETER - 3) * (DIAMETER - 3));
        assert!(n <= (DIAMETER + 1) * (DIAMETER + 1));
    }
}

#[test]
fn stock_particles_part_to_one_diameter() {
    // Two particles of radius 0.2, centres 0.1526 apart.
    let diameter = 1_717_986_918;
    let mut ps = points(&[(0, 0), (655_360_000, 0)]);
    collide(&mut ps, diameter);
    assert_eq!(ps, points(&[(-531_313_459, 0), (1_186_673_459, 0)]));
    assert_eq!(ps[1].x - ps[0].x, diameter);
}

#[test]
fn one_overlapping_pair_among_others() {
    // The pair lies across the origin, in two cells that touch at a
    // corner; the two others are far away.
    let one: i64 = 1 << 32;
    let diameter = 1_717_986_918;
    let start = points(&[
        (-3 * one / 2, one),
        (-one / 10, -one / 10 - 1),
        (one / 10, one / 10),
        (2 * one, -2 * one),
    ]);
    let mut ps = start.clone();
    collide(&mut ps, diameter);
    assert_eq!(ps[0], start[0]);
    assert_eq!(ps[3], start[3]);
    assert_eq!(ps[1].x + ps[2].x, start[1].x + start[2].x);
    assert_eq!(ps[1].y + ps[2].y, start[1].y + start[2].y);
    let dx = (ps[1].x - ps[2].x) as f64 / one as f64;
    let dy = (ps[1].y - ps[2].y) as f64 / one as f64;
    assert!(((dx * dx + dy * dy).sqrt() - 0.4).abs() < 1e-8);
}
