//! The container: a disk around the origin that every particle is kept in.

use vstd::prelude::*;
use crate::root::{ceil_sqrt, ceil_sqrt_spec, lemma_ceil_sqrt};
use crate::arith::{abs, lemma_shortened, lemma_trunc_div, magnitude, mul_div, trunc_div};
use crate::vector::{Point, Vec2};

verus! {

/// The position that a particle at `p` is moved to when its centre may be
/// at most `limit` away from the origin: `p` itself where it is close
/// enough, else `p` scaled toward the origin by `limit` over the rounded-up
/// length of `p`, each coordinate rounded toward zero.
pub open spec fn constrain_spec(p: Point, limit: int) -> Point {
    if p.norm_sq() <= limit * limit {
        p
    } else {
        let d = ceil_sqrt_spec(p.norm_sq());
        Point { x: trunc_div(p.x * limit, d), y: trunc_div(p.y * limit, d) }
    }
}

proof fn lemma_square_scaled(q: int, d: int, a: int, l: int)
    requires
        0 <= q,
        0 < d,
        0 <= a,
        0 <= l,
        q * d <= a * l,
    ensures
        (q * q) * (d * d) <= (a * a) * (l * l),
{
    assert((q * d) * (q * d) <= (a * l) * (a * l)) by (nonlinear_arith)
        requires
            0 <= q * d <= a * l,
    ;
    assert((q * d) * (q * d) == (q * q) * (d * d)) by (nonlinear_arith);
    assert((a * l) * (a * l) == (a * a) * (l * l)) by (nonlinear_arith);
}

/// A constrained position lies in the disk of radius `limit`, in the same
/// quadrant as the position it came from.
pub proof fn lemma_constrain_inside(p: Point, limit: int)
    requires
        0 <= limit,
    ensures
        constrain_spec(p, limit).norm_sq() <= limit * limit,
        constrain_spec(p, limit).within(limit),
        abs(constrain_spec(p, limit).x) <= abs(p.x),
        abs(constrain_spec(p, limit).y) <= abs(p.y),
        p.x >= 0 ==> constrain_spec(p, limit).x >= 0,
        p.x <= 0 ==> constrain_spec(p, limit).x <= 0,
        p.y >= 0 ==> constrain_spec(p, limit).y >= 0,
        p.y <= 0 ==> constrain_spec(p, limit).y <= 0,
{
    let s = p.norm_sq();
    let r = constrain_spec(p, limit);
    assert(p.x * p.x >= 0 && p.y * p.y >= 0) by (nonlinear_arith);
    assert(limit * limit >= 0) by (nonlinear_arith);
    if s > limit * limit {
        lemma_ceil_sqrt(s);
        let d = ceil_sqrt_spec(s);
        lemma_trunc_div(p.x * limit, d);
        lemma_trunc_div(p.y * limit, d);
        let qx = abs(r.x);
        let qy = abs(r.y);
        let ax = abs(p.x);
        let ay = abs(p.y);
        assert(abs(p.x * limit) == ax * limit) by (nonlinear_arith)
            requires
                limit >= 0,
                ax == abs(p.x),
        ;
        assert(abs(p.y * limit) == ay * limit) by (nonlinear_arith)
            requires
                limit >= 0,
                ay == abs(p.y),
        ;
        lemma_square_scaled(qx, d, ax, limit);
        lemma_square_scaled(qy, d, ay, limit);
        assert(ax * ax == p.x * p.x) by (nonlinear_arith)
            requires
                ax == abs(p.x),
        ;
        assert(ay * ay == p.y * p.y) by (nonlinear_arith)
            requires
                ay == abs(p.y),
        ;
        assert(qx * qx == r.x * r.x) by (nonlinear_arith)
            requires
                qx == abs(r.x),
        ;
        assert(qy * qy == r.y * r.y) by (nonlinear_arith)
            requires
                qy == abs(r.y),
        ;
        let n = r.x * r.x + r.y * r.y;
        let ll = limit * limit;
        let dd = d * d;
        assert(n * dd <= s * ll) by (nonlinear_arith)
            requires
                n == qx * qx + qy * qy,
                s == ax * ax + ay * ay,
                (qx * qx) * dd <= (ax * ax) * ll,
                (qy * qy) * dd <= (ay * ay) * ll,
        ;
        assert(n <= ll) by (nonlinear_arith)
            requires
                n * dd <= s * ll,
                s <= dd,
                0 < dd,
                0 <= ll,
                0 <= n,
                0 <= s,
        ;
        assert(qx <= ax) by (nonlinear_arith)
            requires
                qx * d <= ax * limit,
                limit * limit < s,
                s <= d * d,
                0 <= limit,
                0 < d,
                0 <= qx,
                0 <= ax,
        ;
        assert(qy <= ay) by (nonlinear_arith)
            requires
                qy * d <= ay * limit,
                limit * limit < s,
                s <= d * d,
                0 <= limit,
                0 < d,
                0 <= qy,
                0 <= ay,
        ;
        assert(p.x >= 0 ==> p.x * limit >= 0) by (nonlinear_arith)
            requires
                limit >= 0,
        ;
        assert(p.x <= 0 ==> p.x * limit <= 0) by (nonlinear_arith)
            requires
                limit >= 0,
        ;
        assert(p.y >= 0 ==> p.y * limit >= 0) by (nonlinear_arith)
            requires
                limit >= 0,
        ;
        assert(p.y <= 0 ==> p.y * limit <= 0) by (nonlinear_arith)
            requires
                limit >= 0,
        ;
    }
    lemma_norm_bounds(r, limit);
}

/// A point of the disk of radius `limit` has both coordinates within
/// `limit` of zero.
pub proof fn lemma_norm_bounds(p: Point, limit: int)
    requires
        0 <= limit,
        p.norm_sq() <= limit * limit,
    ensures
        p.within(limit),
{
    assert(abs(p.x) <= limit) by (nonlinear_arith)
        requires
            p.x * p.x + p.y * p.y <= limit * limit,
            0 <= limit,
    ;
    assert(abs(p.y) <= limit) by (nonlinear_arith)
        requires
            p.x * p.x + p.y * p.y <= limit * limit,
            0 <= limit,
    ;
}

/// A position that had to be moved ends on the rim, give or take three
/// units: no farther from the origin than `limit`, and no nearer than
/// `limit - 3`.
pub proof fn lemma_constrain_reaches_rim(p: Point, limit: int)
    requires
        3 <= limit,
        limit * limit < p.norm_sq(),
    ensures
        (limit - 3) * (limit - 3) <= constrain_spec(p, limit).norm_sq(),
        constrain_spec(p, limit).norm_sq() <= limit * limit,
{
    lemma_constrain_inside(p, limit);
    let s = p.norm_sq();
    let r = constrain_spec(p, limit);
    lemma_ceil_sqrt(s);
    let d = ceil_sqrt_spec(s);
    assert(limit < d) by (nonlinear_arith)
        requires
            limit * limit < s,
            s <= d * d,
            0 <= d,
            0 <= limit,
    ;
    lemma_trunc_div(p.x * limit, d);
    lemma_trunc_div(p.y * limit, d);
    let ax = abs(p.x);
    let ay = abs(p.y);
    let a = ax * limit;
    let b = ay * limit;
    let pp = abs(r.x) * d;
    let qq = abs(r.y) * d;
    let big = (d - 1) * limit;
    assert(abs(p.x * limit) == a) by (nonlinear_arith)
        requires
            a == abs(p.x) * limit,
            limit >= 0,
    ;
    assert(abs(p.y * limit) == b) by (nonlinear_arith)
        requires
            b == abs(p.y) * limit,
            limit >= 0,
    ;
    assert((abs(r.x) + 1) * d == pp + d) by (nonlinear_arith)
        requires
            pp == abs(r.x) * d,
    ;
    assert((abs(r.y) + 1) * d == qq + d) by (nonlinear_arith)
        requires
            qq == abs(r.y) * d,
    ;
    assert(0 <= a && 0 <= b && 0 <= pp && 0 <= qq && 0 <= big) by (nonlinear_arith)
        requires
            a == ax * limit,
            b == ay * limit,
            pp == abs(r.x) * d,
            qq == abs(r.y) * d,
            big == (d - 1) * limit,
            0 <= ax,
            0 <= ay,
            0 < d,
            0 <= limit,
    ;
    assert(ax * ax == p.x * p.x) by (nonlinear_arith)
        requires
            ax == abs(p.x),
    ;
    assert(ay * ay == p.y * p.y) by (nonlinear_arith)
        requires
            ay == abs(p.y),
    ;
    let ll = limit * limit;
    assert(a * a == (ax * ax) * ll) by (nonlinear_arith)
        requires
            a == ax * limit,
            ll == limit * limit,
    ;
    assert(b * b == (ay * ay) * ll) by (nonlinear_arith)
        requires
            b == ay * limit,
            ll == limit * limit,
    ;
    assert(big * big == ((d - 1) * (d - 1)) * ll) by (nonlinear_arith)
        requires
            big == (d - 1) * limit,
            ll == limit * limit,
    ;
    assert(0 <= ll) by (nonlinear_arith)
        requires
            ll == limit * limit,
    ;
    assert(a * a + b * b == s * ll) by (nonlinear_arith)
        requires
            a * a == (ax * ax) * ll,
            b * b == (ay * ay) * ll,
            s == ax * ax + ay * ay,
    ;
    assert(big * big <= a * a + b * b) by (nonlinear_arith)
        requires
            big * big == ((d - 1) * (d - 1)) * ll,
            a * a + b * b == s * ll,
            (d - 1) * (d - 1) < s,
            0 <= ll,
    ;
    assert(3 * d <= 2 * big) by (nonlinear_arith)
        requires
            big == (d - 1) * limit,
            3 <= limit < d,
    ;
    lemma_shortened(a, b, pp, qq, big, d);
    let n2 = r.norm_sq();
    assert(pp * pp + qq * qq == n2 * (d * d)) by (nonlinear_arith)
        requires
            pp == abs(r.x) * d,
            qq == abs(r.y) * d,
            n2 == r.x * r.x + r.y * r.y,
    ;
    let t = 2 * big - 3 * d;
    let u = 2 * d * (limit - 3);
    assert(0 <= u <= t) by (nonlinear_arith)
        requires
            t == 2 * big - 3 * d,
            u == 2 * d * (limit - 3),
            big == (d - 1) * limit,
            3 <= limit < d,
    ;
    assert(u * u <= t * t) by (nonlinear_arith)
        requires
            0 <= u <= t,
    ;
    assert(u * u == 4 * (((limit - 3) * (limit - 3)) * (d * d))) by (nonlinear_arith)
        requires
            u == 2 * d * (limit - 3),
    ;
    assert((limit - 3) * (limit - 3) <= n2) by (nonlinear_arith)
        requires
            4 * (((limit - 3) * (limit - 3)) * (d * d)) <= 4 * (n2 * (d * d)),
            0 < d,
    ;
}

/// Constraining a position that is already constrained changes nothing.
pub proof fn lemma_constrain_idempotent(p: Point, limit: int)
    requires
        0 <= limit,
    ensures
        constrain_spec(constrain_spec(p, limit), limit) == constrain_spec(p, limit),
{
    lemma_constrain_inside(p, limit);
}

/// Keeps a particle of radius `particle_radius` inside the container of
/// radius `container_radius`: a centre farther from the origin than the
/// difference of the two is moved radially inward to that distance, any
/// other is returned as it is.
pub fn constrain(position: Vec2, container_radius: i64, particle_radius: i64) -> (r: Vec2)
    requires
        0 <= particle_radius <= container_radius,
    ensures
        r@ == constrain_spec(position@, container_radius - particle_radius),
        r@.norm_sq() <= (container_radius - particle_radius) * (container_radius
            - particle_radius),
        r@.within(container_radius - particle_radius),
{
    let limit: i64 = container_radius - particle_radius;
    let ax: u128 = magnitude(position.x);
    let ay: u128 = magnitude(position.y);
    proof {
        lemma_constrain_inside(position@, limit as int);
        assert(ax * ax <= 0x4000_0000_0000_0000_0000_0000_0000_0000) by (nonlinear_arith)
            requires
                ax <= 0x8000_0000_0000_0000,
        ;
        assert(ay * ay <= 0x4000_0000_0000_0000_0000_0000_0000_0000) by (nonlinear_arith)
            requires
                ay <= 0x8000_0000_0000_0000,
        ;
        assert(limit * limit <= 0x4000_0000_0000_0000_0000_0000_0000_0000) by (nonlinear_arith)
            requires
                0 <= limit <= 0x8000_0000_0000_0000,
        ;
        assert(ax * ax == position@.x * position@.x) by (nonlinear_arith)
            requires
                ax == abs(position@.x),
        ;
        assert(ay * ay == position@.y * position@.y) by (nonlinear_arith)
            requires
                ay == abs(position@.y),
        ;
    }
    let s: u128 = ax * ax + ay * ay;
    let l: u128 = limit as u128;
    if s <= l * l {
        return position;
    }
    let d: u128 = ceil_sqrt(s);
    proof {
        lemma_ceil_sqrt(s as int);
        assert(ax <= d) by (nonlinear_arith)
            requires
                ax * ax <= s,
                s <= d * d,
                0 <= d,
                0 <= ax,
        ;
        assert(ay <= d) by (nonlinear_arith)
            requires
                ay * ay <= s,
                s <= d * d,
                0 <= d,
                0 <= ay,
        ;
    }
    let x: i64 = mul_div(position.x, limit, d as i128);
    let y: i64 = mul_div(position.y, limit, d as i128);
    Vec2 { x, y }
}

} // verus!
