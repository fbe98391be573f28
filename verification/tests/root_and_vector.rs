use particle_sim::root::{ceil_sqrt, isqrt};
use particle_sim::arith::{magnitude, mul_div};
use particle_sim::vector::{all_in_range, Vec2};

#[test]
fn isqrt_of_small_numbers() {
    let expected = [0u128, 1, 1, 1, 2, 2, 2, 2, 2, 3];
    for n in 0..10u128 {
        assert_eq!(isqrt(n), expected[n as usize]);
    }
}

#[test]
fn isqrt_around_perfect_squares() {
    assert_eq!(isqrt(15), 3);
    assert_eq!(isqrt(16), 4);
    assert_eq!(isqrt(17), 4);
    assert_eq!(isqrt(2_500_000_000), 50_000);
    assert_eq!(isqrt(2_499_999_999), 49_999);
}

#[test]
fn isqrt_of_the_largest_input() {
    assert_eq!(isqrt(u128::MAX), 0xffff_ffff_ffff_ffff);
    assert_eq!(isqrt(1u128 << 126), 1u128 << 63);
}

#[test]
fn ceil_sqrt_rounds_up() {
    assert_eq!(ceil_sqrt(0), 0);
    assert_eq!(ceil_sqrt(1), 1);
    assert_eq!(ceil_sqrt(2), 2);
    assert_eq!(ceil_sqrt(16), 4);
    assert_eq!(ceil_sqrt(17), 5);
    assert_eq!(ceil_sqrt(u128::MAX), 1u128 << 64);
}

#[test]
fn magnitude_of_extremes() {
    assert_eq!(magnitude(0), 0);
    assert_eq!(magnitude(-5), 5);
    assert_eq!(magnitude(7), 7);
    assert_eq!(magnitude(i64::MIN), 1u128 << 63);
    assert_eq!(magnitude(i64::MAX), (1u128 << 63) - 1);
}

#[test]
fn mul_div_rounds_toward_zero() {
    assert_eq!(mul_div(7, 3, 10), 2);
    assert_eq!(mul_div(-7, 3, 10), -2);
    assert_eq!(mul_div(10, 3, 10), 3);
    assert_eq!(mul_div(-1, 1, 2), 0);
    assert_eq!(mul_div(i64::MIN, i64::MAX, 1i128 << 63), -i64::MAX);
}

#[test]
fn vec2_constructors() {
    assert_eq!(Vec2::new(3, -4), Vec2 { x: 3, y: -4 });
    assert_eq!(Vec2::zero(), Vec2 { x: 0, y: 0 });
}

#[test]
fn all_in_range_checks_both_coordinates() {
    let ps = vec![Vec2::new(5, -5), Vec2::new(-3, 0)];
    assert!(all_in_range(&ps, 5));
    assert!(!all_in_range(&ps, 4));
    assert!(!all_in_range(&vec![Vec2::new(0, 6)], 5));
    assert!(!all_in_range(&vec![Vec2::new(-6, 0)], 5));
    assert!(all_in_range(&Vec::new(), 0));
    assert!(all_in_range(&vec![Vec2::new(i64::MAX, -i64::MAX)], i64::MAX));
    assert!(!all_in_range(&vec![Vec2::new(i64::MIN, 0)], i64::MAX));
}
