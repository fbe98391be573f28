use particle_sim::boundary::constrain;
use particle_sim::vector::Vec2;

#[test]
fn inside_position_is_unchanged() {
    let p = Vec2::new(1000, -2000);
    assert_eq!(constrain(p, 10_000, 100), p);
}

#[test]
fn position_on_the_rim_is_unchanged() {
    assert_eq!(constrain(Vec2::new(3, 4), 5, 0), Vec2::new(3, 4));
    assert_eq!(constrain(Vec2::new(-5, 0), 7, 2), Vec2::new(-5, 0));
}

#[test]
fn outside_position_is_pulled_to_the_rim() {
    // A 3-4-5 triangle of length 50_000, pulled to length 25_000.
    let p = Vec2::new(30_000, -40_000);
    assert_eq!(constrain(p, 26_000, 1_000), Vec2::new(15_000, -20_000));
}

#[test]
fn rounding_is_toward_the_origin() {
    assert_eq!(constrain(Vec2::new(-7, 100_000), 50_000, 10_000), Vec2::new(-2, 39_999));
    assert_eq!(constrain(Vec2::new(3, 4), 4, 0), Vec2::new(2, 3));
}

#[test]
fn origin_stays_at_the_origin() {
    assert_eq!(constrain(Vec2::zero(), 196_608, 13_107), Vec2::zero());
    assert_eq!(constrain(Vec2::zero(), 5, 5), Vec2::zero());
}

#[test]
fn particle_as_large_as_the_container_is_held_at_the_origin() {
    assert_eq!(constrain(Vec2::new(123, -456), 10, 10), Vec2::zero());
}

#[test]
fn constrain_twice_is_constrain_once() {
    let samples = [
        Vec2::new(400_000, -300_000),
        Vec2::new(-1, 999_999),
        Vec2::new(183_501, 0),
        Vec2::new(-129_000, -131_000),
        Vec2::new(i64::MAX, i64::MIN),
        Vec2::new(17, 4),
    ];
    for p in samples {
        let once = constrain(p, 196_608, 13_107);
        assert_eq!(constrain(once, 196_608, 13_107), once);
        let limit: i128 = 196_608 - 13_107;
        let n = (once.x as i128) * (once.x as i128) + (once.y as i128) * (once.y as i128);
        assert!(n <= limit * limit);
    }
}

#[test]
fn extreme_coordinates_are_accepted() {
    let r = constrain(Vec2::new(i64::MIN, i64::MIN), 1_000_000, 0);
    assert_eq!(r, Vec2::new(-707_106, -707_106));
}
