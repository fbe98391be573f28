//! What happens to one pair of particles that overlap.

use vstd::prelude::*;
use crate::root::{isqrt, isqrt_spec, lemma_isqrt_exists};
use crate::arith::{abs, lemma_shortened, lemma_trunc_div, magnitude, mul_div, trunc_div};
use crate::vector::{Point, Vec2};

verus! {

/// The largest particle diameter that the kernel accepts.
pub const MAX_DIAMETER: i64 = 0x8_0000_0000;

/// The distance of an overlapping pair is measured in steps of one part in
/// `ROOT_SCALE` of a unit.
pub const ROOT_SCALE: i64 = 0x100_0000;

/// The distance of two particles that are `d` apart, in steps of one part
/// in `ROOT_SCALE` of a unit, rounded down.
pub open spec fn fine_distance(d: Point) -> int {
    isqrt_spec(d.norm_sq() * (ROOT_SCALE as int * ROOT_SCALE as int))
}

/// The displacement that the first particle of a pair receives, and the
/// second particle in reverse, where `d` leads from the second to the first.
///
/// Particles at least `diameter` apart are left alone. Otherwise each gives
/// way by half the penetration, along `d`, rounded toward zero; particles
/// at the same place part along the first axis.
pub open spec fn push_spec(d: Point, diameter: int) -> Point {
    let s = d.norm_sq();
    if s >= diameter * diameter {
        Point::zero()
    } else if s == 0 {
        Point { x: diameter / 2, y: 0 }
    } else {
        let dist = fine_distance(d);
        let gap = diameter * ROOT_SCALE as int - dist;
        Point { x: trunc_div(d.x * gap, 2 * dist), y: trunc_div(d.y * gap, 2 * dist) }
    }
}

/// The difference of the two positions of a pair after it was resolved.
pub open spec fn parted(d: Point, diameter: int) -> Point {
    let c = push_spec(d, diameter);
    Point { x: d.x + 2 * c.x, y: d.y + 2 * c.y }
}

/// What the fine distance of an overlapping pair is bounded by.
pub proof fn lemma_fine_distance(d: Point, diameter: int)
    requires
        0 < d.norm_sq() < diameter * diameter,
        0 < diameter,
    ensures
        ROOT_SCALE <= fine_distance(d) < diameter * ROOT_SCALE,
        abs(d.x) * ROOT_SCALE <= fine_distance(d),
        abs(d.y) * ROOT_SCALE <= fine_distance(d),
        fine_distance(d) * fine_distance(d) <= d.norm_sq() * (ROOT_SCALE as int
            * ROOT_SCALE as int),
        d.norm_sq() * (ROOT_SCALE as int * ROOT_SCALE as int) < (fine_distance(d) + 1) * (
        fine_distance(d) + 1),
{
    let f = ROOT_SCALE as int;
    let s = d.norm_sq();
    let n = s * (f * f);
    assert(n >= f * f) by (nonlinear_arith)
        requires
            n == s * (f * f),
            s >= 1,
    ;
    lemma_isqrt_exists(n);
    let root = isqrt_spec(n);
    assert(root >= f) by (nonlinear_arith)
        requires
            f * f <= n,
            n < (root + 1) * (root + 1),
            0 <= root,
            0 < f,
    ;
    assert(root < diameter * f) by (nonlinear_arith)
        requires
            root * root <= n,
            n == s * (f * f),
            s < diameter * diameter,
            0 <= root,
            0 < diameter,
            0 < f,
    ;
    lemma_fine_coordinate(d.x, d.y, f, root);
    lemma_fine_coordinate(d.y, d.x, f, root);
}

proof fn lemma_fine_coordinate(a: int, b: int, f: int, root: int)
    requires
        0 < f,
        0 <= root,
        (a * a + b * b) * (f * f) < (root + 1) * (root + 1),
    ensures
        abs(a) * f <= root,
{
    let m = abs(a) * f;
    assert(m * m <= (a * a + b * b) * (f * f)) by (nonlinear_arith)
        requires
            m == abs(a) * f,
            0 < f,
    ;
    assert(m <= root) by (nonlinear_arith)
        requires
            m * m < (root + 1) * (root + 1),
            0 <= root,
    ;
}

/// No coordinate of a displacement exceeds half the diameter.
pub proof fn lemma_push_small(d: Point, diameter: int)
    requires
        diameter > 0,
    ensures
        2 * abs(push_spec(d, diameter).x) <= diameter,
        2 * abs(push_spec(d, diameter).y) <= diameter,
        push_spec(d, diameter).within(diameter),
{
    let s = d.norm_sq();
    assert(d.x * d.x >= 0 && d.y * d.y >= 0) by (nonlinear_arith);
    if 0 < s < diameter * diameter {
        lemma_fine_distance(d, diameter);
        let dist = fine_distance(d);
        let gap = diameter * ROOT_SCALE as int - dist;
        lemma_scaled_half(d.x, gap, dist, diameter);
        lemma_scaled_half(d.y, gap, dist, diameter);
    }
}

proof fn lemma_scaled_half(a: int, gap: int, dist: int, diameter: int)
    requires
        0 < dist,
        0 < gap,
        gap < diameter * ROOT_SCALE,
        abs(a) * ROOT_SCALE <= dist,
    ensures
        2 * abs(trunc_div(a * gap, 2 * dist)) <= diameter,
{
    let f = ROOT_SCALE as int;
    lemma_trunc_div(a * gap, 2 * dist);
    let q = abs(trunc_div(a * gap, 2 * dist));
    assert(abs(a * gap) == abs(a) * gap) by (nonlinear_arith)
        requires
            0 < gap,
    ;
    assert(2 * q * f <= gap) by (nonlinear_arith)
        requires
            q * (2 * dist) <= abs(a) * gap,
            abs(a) * f <= dist,
            0 < dist,
            0 < gap,
            0 <= q,
            0 < f,
    ;
}

/// One coordinate of a parted pair: it has the sign of the coordinate it
/// came from, and times the fine distance it falls short of that coordinate
/// times the diameter in steps by less than two fine distances.
proof fn lemma_parted_coordinate(a: int, gap: int, dist: int)
    requires
        0 < dist,
        0 < gap,
    ensures
        ({
            let b = a + 2 * trunc_div(a * gap, 2 * dist);
            &&& abs(b) * dist <= abs(a) * (dist + gap)
            &&& abs(a) * (dist + gap) - 2 * dist <= abs(b) * dist
        }),
{
    let n = a * gap;
    let q = trunc_div(n, 2 * dist);
    let b = a + 2 * q;
    lemma_trunc_div(n, 2 * dist);
    assert(abs(n) == abs(a) * gap) by (nonlinear_arith)
        requires
            n == a * gap,
            0 < gap,
    ;
    assert(a >= 0 ==> n >= 0) by (nonlinear_arith)
        requires
            n == a * gap,
            0 < gap,
    ;
    assert(a <= 0 ==> n <= 0) by (nonlinear_arith)
        requires
            n == a * gap,
            0 < gap,
    ;
    assert(abs(b) == abs(a) + 2 * abs(q));
    assert(abs(b) * dist == abs(a) * dist + abs(q) * (2 * dist)) by (nonlinear_arith)
        requires
            abs(b) == abs(a) + 2 * abs(q),
    ;
    assert(abs(a) * (dist + gap) == abs(a) * dist + abs(a) * gap) by (nonlinear_arith);
    assert((abs(q) + 1) * (2 * dist) == abs(q) * (2 * dist) + 2 * dist) by (nonlinear_arith);
}

/// How far a pair is apart once it has been resolved: one diameter, give
/// or take three units below and one part in `ROOT_SCALE` above.
pub proof fn lemma_push_separates(d: Point, diameter: int)
    requires
        3 <= diameter,
        d.norm_sq() < diameter * diameter,
    ensures
        (diameter - 3) * (diameter - 3) <= parted(d, diameter).norm_sq(),
        parted(d, diameter).norm_sq() * (ROOT_SCALE as int * ROOT_SCALE as int) <= (diameter
            * diameter) * ((ROOT_SCALE + 1) * (ROOT_SCALE + 1)),
{
    let f = ROOT_SCALE as int;
    let w = diameter;
    let s = d.norm_sq();
    let r = parted(d, diameter);
    assert(d.x * d.x >= 0 && d.y * d.y >= 0) by (nonlinear_arith);
    assert(0 < w * w) by (nonlinear_arith)
        requires
            3 <= w,
    ;
    if s == 0 {
        let h = 2 * (w / 2);
        assert(d.x == 0 && d.y == 0) by (nonlinear_arith)
            requires
                d.x * d.x + d.y * d.y == 0,
        ;
        assert(r == Point { x: h, y: 0 });
        assert(w - 1 <= h <= w);
        assert(r.norm_sq() == h * h);
        assert((w - 3) * (w - 3) <= h * h) by (nonlinear_arith)
            requires
                3 <= w,
                w - 1 <= h,
        ;
        assert(h * h <= w * w) by (nonlinear_arith)
            requires
                0 <= h <= w,
        ;
        assert((h * h) * (f * f) <= (w * w) * ((f + 1) * (f + 1))) by (nonlinear_arith)
            requires
                0 <= h * h <= w * w,
                0 < f,
        ;
    } else {
        lemma_fine_distance(d, diameter);
        let dist = fine_distance(d);
        let gap = w * f - dist;
        lemma_parted_coordinate(d.x, gap, dist);
        lemma_parted_coordinate(d.y, gap, dist);
        let a = abs(d.x) * (w * f);
        let b = abs(d.y) * (w * f);
        let p = abs(r.x) * dist;
        let q = abs(r.y) * dist;
        let e = 2 * dist;
        let big = dist * w;
        assert(dist + gap == w * f);
        assert(p >= 0 && q >= 0 && a >= 0 && b >= 0) by (nonlinear_arith)
            requires
                p == abs(r.x) * dist,
                q == abs(r.y) * dist,
                a == abs(d.x) * (w * f),
                b == abs(d.y) * (w * f),
                dist > 0,
                w > 0,
                f > 0,
        ;
        let ax = abs(d.x);
        let ay = abs(d.y);
        let wf = w * f;
        assert(ax * ax == d.x * d.x) by (nonlinear_arith)
            requires
                ax == abs(d.x),
        ;
        assert(ay * ay == d.y * d.y) by (nonlinear_arith)
            requires
                ay == abs(d.y),
        ;
        assert(a * a == (ax * ax) * (wf * wf)) by (nonlinear_arith)
            requires
                a == ax * wf,
        ;
        assert(b * b == (ay * ay) * (wf * wf)) by (nonlinear_arith)
            requires
                b == ay * wf,
        ;
        assert(wf * wf == (f * f) * (w * w)) by (nonlinear_arith)
            requires
                wf == w * f,
        ;
        assert(a * a + b * b == (s * (f * f)) * (w * w)) by (nonlinear_arith)
            requires
                a * a == (ax * ax) * (wf * wf),
                b * b == (ay * ay) * (wf * wf),
                wf * wf == (f * f) * (w * w),
                s == ax * ax + ay * ay,
        ;
        assert(big * big <= a * a + b * b) by (nonlinear_arith)
            requires
                big == dist * w,
                dist * dist <= s * (f * f),
                a * a + b * b == (s * (f * f)) * (w * w),
        ;
        assert(3 * e <= 2 * big) by (nonlinear_arith)
            requires
                e == 2 * dist,
                big == dist * w,
                3 <= w,
                0 < dist,
        ;
        assert(0 <= big) by (nonlinear_arith)
            requires
                big == dist * w,
                3 <= w,
                0 < dist,
        ;
        lemma_shortened(a, b, p, q, big, e);
        let n2 = r.norm_sq();
        assert(p * p + q * q == n2 * (dist * dist)) by (nonlinear_arith)
            requires
                p == abs(r.x) * dist,
                q == abs(r.y) * dist,
                n2 == r.x * r.x + r.y * r.y,
        ;
        assert((2 * big - 3 * e) * (2 * big - 3 * e) == 4 * (((w - 3) * (w - 3)) * (dist * dist)))
            by (nonlinear_arith)
            requires
                big == dist * w,
                e == 2 * dist,
        ;
        assert((w - 3) * (w - 3) <= n2) by (nonlinear_arith)
            requires
                4 * (((w - 3) * (w - 3)) * (dist * dist)) <= 4 * (n2 * (dist * dist)),
                dist > 0,
        ;
        assert(p * p <= a * a) by (nonlinear_arith)
            requires
                0 <= p <= a,
        ;
        assert(q * q <= b * b) by (nonlinear_arith)
            requires
                0 <= q <= b,
        ;
        // n2 * dist^2 <= s f^2 w^2 < (dist + 1)^2 w^2, and dist >= f
        let up = (dist + 1) * (dist + 1);
        let ww = w * w;
        assert(0 <= ww) by (nonlinear_arith)
            requires
                ww == w * w,
        ;
        assert(0 <= n2) by (nonlinear_arith)
            requires
                n2 == r.x * r.x + r.y * r.y,
        ;
        assert(n2 * (dist * dist) <= up * ww) by (nonlinear_arith)
            requires
                n2 * (dist * dist) <= (s * (f * f)) * ww,
                s * (f * f) < up,
                0 <= ww,
        ;
        assert(up * (f * f) <= ((f + 1) * (f + 1)) * (dist * dist)) by (nonlinear_arith)
            requires
                up == (dist + 1) * (dist + 1),
                0 < f <= dist,
        ;
        assert(n2 * (f * f) <= ww * ((f + 1) * (f + 1))) by (nonlinear_arith)
            requires
                n2 * (dist * dist) <= up * ww,
                up * (f * f) <= ((f + 1) * (f + 1)) * (dist * dist),
                0 < dist,
                0 <= n2,
                0 < f,
                0 <= ww,
        ;
    }
}

/// Computes the displacement of the first particle of a pair whose second
/// particle is `d` away from it.
pub fn push(d: Vec2, diameter: i64) -> (c: Vec2)
    requires
        0 < diameter <= MAX_DIAMETER,
        d@.within(0x4000_0000_0000_0000),
    ensures
        c@ == push_spec(d@, diameter as int),
        2 * abs(c@.x) <= diameter,
        2 * abs(c@.y) <= diameter,
{
    let ax: u128 = magnitude(d.x);
    let ay: u128 = magnitude(d.y);
    proof {
        lemma_push_small(d@, diameter as int);
        assert(ax * ax <= 0x1000_0000_0000_0000_0000_0000_0000_0000) by (nonlinear_arith)
            requires
                ax <= 0x4000_0000_0000_0000,
        ;
        assert(ay * ay <= 0x1000_0000_0000_0000_0000_0000_0000_0000) by (nonlinear_arith)
            requires
                ay <= 0x4000_0000_0000_0000,
        ;
        assert(diameter * diameter <= 0x40_0000_0000_0000_0000) by (nonlinear_arith)
            requires
                0 < diameter <= 0x8_0000_0000,
        ;
        assert(ax * ax == d@.x * d@.x) by (nonlinear_arith)
            requires
                ax == abs(d@.x),
        ;
        assert(ay * ay == d@.y * d@.y) by (nonlinear_arith)
            requires
                ay == abs(d@.y),
        ;
    }
    let s: u128 = ax * ax + ay * ay;
    let w: u128 = diameter as u128;
    if s >= w * w {
        return Vec2 { x: 0, y: 0 };
    }
    if s == 0 {
        return Vec2 { x: diameter / 2, y: 0 };
    }
    proof {
        lemma_fine_distance(d@, diameter as int);
        assert(ROOT_SCALE as int * ROOT_SCALE as int == 0x1_0000_0000_0000);
    }
    let root: u128 = isqrt(s * 0x1_0000_0000_0000);
    assert(root == fine_distance(d@));
    assert(diameter * ROOT_SCALE <= 0x800_0000_0000_0000) by (nonlinear_arith)
        requires
            0 < diameter <= 0x8_0000_0000,
            ROOT_SCALE == 0x100_0000,
    ;
    let dist: i64 = root as i64;
    let gap: i64 = diameter * ROOT_SCALE - dist;
    let den: i128 = 2 * (dist as i128);
    proof {
        assert(abs(d@.x) <= abs(d@.x) * ROOT_SCALE) by (nonlinear_arith)
            requires
                ROOT_SCALE >= 1,
        ;
        assert(abs(d@.y) <= abs(d@.y) * ROOT_SCALE) by (nonlinear_arith)
            requires
                ROOT_SCALE >= 1,
        ;
    }
    let x: i64 = mul_div(d.x, gap, den);
    let y: i64 = mul_div(d.y, gap, den);
    Vec2 { x, y }
}

} // verus!
