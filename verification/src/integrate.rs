//! The integrator: one Verlet step for every particle, after one collision
//! pass.

use vstd::prelude::*;
use crate::arith::{abs, lemma_trunc_div, trunc_div};
use crate::collide::{
    apart, collide, collide_spec, lemma_collide_apart, lemma_resolve_rows_within, MAX_PARTICLES,
};
use crate::pair::MAX_DIAMETER;
use crate::grid::cells_of;
use crate::vector::{all_in_range, all_within, model, zeros, Point, Vec2, COORD_MAX};

verus! {

/// The fixed-point unit: the integer that stands for the number one.
pub const ONE: i64 = 0x1_0000_0000;

/// The radius of a stock particle: a fifth of a unit of length.
pub const BALL_RADIUS: i64 = 858_993_459;

/// The largest magnitude of a coordinate of an acceleration.
pub const ACCEL_MAX: i64 = 0x1_0000_0000_0000;

/// The largest magnitude of a time step.
pub const DT_MAX: i64 = 0x10_0000_0000;

/// The change of position that the acceleration `a` causes in a time step
/// `dt`, both in fixed point: `a * dt * dt`, rounded toward zero.
pub open spec fn impulse_spec(a: int, dt: int) -> int {
    trunc_div(a * (dt * dt), ONE as int * ONE as int)
}

/// The position that follows `p` where `last` came before it: the particle
/// keeps the velocity that the two imply and gains what the acceleration
/// adds.
pub open spec fn verlet_spec(p: Point, last: Point, a: Point, dt: int) -> Point {
    Point {
        x: p.x + (p.x - last.x) + impulse_spec(a.x, dt),
        y: p.y + (p.y - last.y) + impulse_spec(a.y, dt),
    }
}

/// The next position of every particle.
pub open spec fn advance_spec(ps: Seq<Point>, last: Seq<Point>, accels: Seq<Point>, dt: int)
    -> Seq<Point> {
    Seq::new(ps.len(), |i: int| verlet_spec(ps[i], last[i], accels[i], dt))
}

/// Current and previous position of every particle.
pub ghost struct Motion {
    pub pos: Seq<Point>,
    pub last: Seq<Point>,
}

/// The motion after one step: overlapping particles are pushed apart, the
/// positions so reached become the previous ones, and every particle
/// advances from there.
pub open spec fn integrate_spec(m: Motion, accels: Seq<Point>, dt: int, diameter: int) -> Motion {
    let settled = collide_spec(m.pos, diameter);
    Motion { pos: advance_spec(settled, m.last, accels, dt), last: settled }
}

/// The motion after `k` steps under the same accelerations.
pub open spec fn run_spec(m: Motion, accels: Seq<Point>, dt: int, diameter: int, k: nat) -> Motion
    decreases k,
{
    if k == 0 {
        m
    } else {
        integrate_spec(run_spec(m, accels, dt, diameter, (k - 1) as nat), accels, dt, diameter)
    }
}

/// An impulse is the acceleration scaled by the square of the time step,
/// rounded toward zero: it has the sign of the acceleration, is no larger
/// than the exact gain and falls short of it by less than one unit.
pub proof fn lemma_impulse(a: int, dt: int)
    ensures
        abs(impulse_spec(a, dt)) * (ONE as int * ONE as int) <= abs(a) * (dt * dt),
        abs(a) * (dt * dt) < (abs(impulse_spec(a, dt)) + 1) * (ONE as int * ONE as int),
        abs(impulse_spec(a, dt) * (ONE as int * ONE as int) - a * (dt * dt)) < ONE as int
            * ONE as int,
        a == 0 ==> impulse_spec(a, dt) == 0,
        a >= 0 ==> impulse_spec(a, dt) >= 0,
        a <= 0 ==> impulse_spec(a, dt) <= 0,
{
    let sq = dt * dt;
    assert(sq >= 0) by (nonlinear_arith)
        requires
            sq == dt * dt,
    ;
    lemma_trunc_div(a * sq, ONE as int * ONE as int);
    assert(abs(a * sq) == abs(a) * sq) by (nonlinear_arith)
        requires
            sq >= 0,
    ;
    assert(a >= 0 ==> a * sq >= 0) by (nonlinear_arith)
        requires
            sq >= 0,
    ;
    assert(a <= 0 ==> a * sq <= 0) by (nonlinear_arith)
        requires
            sq >= 0,
    ;
    assert(a == 0 ==> a * sq == 0) by (nonlinear_arith);
    let g = impulse_spec(a, dt);
    let scale = ONE as int * ONE as int;
    assert((abs(g) + 1) * scale == abs(g) * scale + scale) by (nonlinear_arith);
    assert(abs(g * scale) == abs(g) * scale) by (nonlinear_arith)
        requires
            scale > 0,
    ;
    assert(g >= 0 ==> g * scale >= 0) by (nonlinear_arith)
        requires
            scale > 0,
    ;
    assert(g <= 0 ==> g * scale <= 0) by (nonlinear_arith)
        requires
            scale > 0,
    ;
}

/// Particles at rest of which no two overlap, with no acceleration, stay
/// where they are, however many steps are taken.
pub proof fn lemma_rest_stays(ps: Seq<Point>, dt: int, diameter: int, k: nat)
    requires
        ps.len() <= usize::MAX,
        apart(ps, diameter),
    ensures
        run_spec(Motion { pos: ps, last: ps }, zeros(ps.len()), dt, diameter, k) == (Motion {
            pos: ps,
            last: ps,
        }),
    decreases k,
{
    if k > 0 {
        lemma_rest_stays(ps, dt, diameter, (k - 1) as nat);
        lemma_collide_apart(ps, diameter);
        lemma_impulse(0, dt);
        assert(advance_spec(ps, ps, zeros(ps.len()), dt) =~= ps);
    }
}

/// The `k`-th triangular number.
pub open spec fn triangular(k: int) -> int {
    k * (k + 1) / 2
}

/// Each triangular number exceeds the one before it by its index.
pub proof fn lemma_triangular(k: int)
    ensures
        triangular(k) == triangular(k - 1) + k,
{
    assert(k * (k + 1) == (k - 1) * k + 2 * k) by (nonlinear_arith);
}

/// A lone particle that starts at rest at `p` under a constant acceleration
/// `a` has, after `k` steps, moved by the impulse of one step times the
/// `k`-th triangular number, and was one step earlier where the number
/// before it gives.
pub proof fn lemma_projectile(p: Point, a: Point, dt: int, diameter: int, k: nat)
    ensures
        run_spec(Motion { pos: seq![p], last: seq![p] }, seq![a], dt, diameter, k) == (Motion {
            pos: seq![
                Point {
                    x: p.x + impulse_spec(a.x, dt) * triangular(k as int),
                    y: p.y + impulse_spec(a.y, dt) * triangular(k as int),
                },
            ],
            last: seq![
                Point {
                    x: p.x + impulse_spec(a.x, dt) * triangular(k - 1),
                    y: p.y + impulse_spec(a.y, dt) * triangular(k - 1),
                },
            ],
        }),
    decreases k,
{
    let gx = impulse_spec(a.x, dt);
    let gy = impulse_spec(a.y, dt);
    if k == 0 {
        assert(0int * (0int + 1) == 0 && (-1int) * (-1int + 1) == 0) by (nonlinear_arith);
        assert(triangular(0) == 0 && triangular(-1) == 0);
        assert(gx * 0 == 0 && gy * 0 == 0);
    } else {
        lemma_projectile(p, a, dt, diameter, (k - 1) as nat);
        let before = run_spec(
            Motion { pos: seq![p], last: seq![p] },
            seq![a],
            dt,
            diameter,
            (k - 1) as nat,
        );
        lemma_collide_apart(before.pos, diameter);
        lemma_triangular(k as int);
        lemma_triangular(k - 1);
        let t1 = triangular(k - 1);
        let t2 = triangular(k - 2);
        let t = triangular(k as int);
        assert(gx * t1 + (gx * t1 - gx * t2) + gx == gx * t) by (nonlinear_arith)
            requires
                t == t1 + k,
                t1 == t2 + (k - 1),
        ;
        assert(gy * t1 + (gy * t1 - gy * t2) + gy == gy * t) by (nonlinear_arith)
            requires
                t == t1 + k,
                t1 == t2 + (k - 1),
        ;
        let after = integrate_spec(before, seq![a], dt, diameter);
        assert(after.pos =~= seq![Point { x: p.x + gx * t, y: p.y + gy * t }]);
    }
}

/// Where `g` is within one unit of the exact gain `e` over `scale`, `t`
/// gains are within `t` units of `t` exact gains.
proof fn lemma_gains(g: int, e: int, scale: int, t: int)
    requires
        0 <= t,
        0 < scale,
        abs(g * scale - e) < scale,
        abs(g * scale) <= abs(e),
    ensures
        abs((g * t) * scale - e * t) <= t * scale,
        t > 0 ==> abs((g * t) * scale - e * t) < t * scale,
        abs(g * t) * scale <= abs(e) * t,
{
    let d = g * scale - e;
    assert((g * t) * scale - e * t == d * t) by (nonlinear_arith)
        requires
            d == g * scale - e,
    ;
    assert(abs(d * t) == abs(d) * t) by (nonlinear_arith)
        requires
            0 <= t,
    ;
    assert(abs(d) * t <= t * scale) by (nonlinear_arith)
        requires
            0 <= abs(d) < scale,
            0 <= t,
    ;
    assert(t > 0 ==> abs(d) * t < t * scale) by (nonlinear_arith)
        requires
            0 <= abs(d) < scale,
            0 <= t,
    ;
    assert(abs(g * t) * scale == abs(g * scale) * t) by (nonlinear_arith)
        requires
            0 <= t,
            0 < scale,
    ;
    assert(abs(g * scale) * t <= abs(e) * t) by (nonlinear_arith)
        requires
            abs(g * scale) <= abs(e),
            0 <= t,
    ;
}

/// The triangular numbers from zero on are not negative.
pub proof fn lemma_triangular_sign(k: int)
    requires
        -1 <= k,
    ensures
        0 <= triangular(k),
{
    assert(0 <= k * (k + 1)) by (nonlinear_arith)
        requires
            -1 <= k,
    ;
}

/// The constant-acceleration law against the exact gain. A lone particle
/// that starts at rest at `p` under a constant acceleration `a` is, after
/// `k` steps, within `k (k + 1) / 2` units of `p + a dt^2 k (k + 1) / 2`,
/// and never beyond it; its previous position is as near to the same sum
/// for `k - 1`. The positions and the exact gain are compared times the
/// square of `ONE`, the scale that one unit of `a dt^2` has.
pub proof fn lemma_projectile_exact(p: Point, a: Point, dt: int, diameter: int, k: nat)
    ensures
        ({
            let after = run_spec(Motion { pos: seq![p], last: seq![p] }, seq![a], dt, diameter, k);
            let scale = ONE as int * ONE as int;
            let t = triangular(k as int);
            let u = triangular(k - 1);
            &&& after.pos.len() == 1
            &&& after.last.len() == 1
            &&& abs((after.pos[0].x - p.x) * scale - (a.x * (dt * dt)) * t) <= t * scale
            &&& abs((after.pos[0].y - p.y) * scale - (a.y * (dt * dt)) * t) <= t * scale
            &&& abs(after.pos[0].x - p.x) * scale <= abs(a.x * (dt * dt)) * t
            &&& abs(after.pos[0].y - p.y) * scale <= abs(a.y * (dt * dt)) * t
            &&& abs((after.last[0].x - p.x) * scale - (a.x * (dt * dt)) * u) <= u * scale
            &&& abs((after.last[0].y - p.y) * scale - (a.y * (dt * dt)) * u) <= u * scale
        }),
{
    lemma_projectile(p, a, dt, diameter, k);
    lemma_impulse(a.x, dt);
    lemma_impulse(a.y, dt);
    lemma_triangular_sign(k as int);
    lemma_triangular_sign(k - 1);
    let scale = ONE as int * ONE as int;
    let sq = dt * dt;
    let t = triangular(k as int);
    let u = triangular(k - 1);
    let gx = impulse_spec(a.x, dt);
    let gy = impulse_spec(a.y, dt);
    assert(sq >= 0) by (nonlinear_arith)
        requires
            sq == dt * dt,
    ;
    assert(abs(a.x * sq) == abs(a.x) * sq) by (nonlinear_arith)
        requires
            sq >= 0,
    ;
    assert(abs(a.y * sq) == abs(a.y) * sq) by (nonlinear_arith)
        requires
            sq >= 0,
    ;
    assert(abs(gx * scale) == abs(gx) * scale) by (nonlinear_arith)
        requires
            scale > 0,
    ;
    assert(abs(gy * scale) == abs(gy) * scale) by (nonlinear_arith)
        requires
            scale > 0,
    ;
    lemma_gains(gx, a.x * sq, scale, t);
    lemma_gains(gy, a.y * sq, scale, t);
    lemma_gains(gx, a.x * sq, scale, u);
    lemma_gains(gy, a.y * sq, scale, u);
}

/// Where no two particles overlap, a step moves every particle on its
/// own: its position becomes its previous position, and it advances by
/// the velocity that the two had implied and by its impulse.
pub proof fn lemma_integrate_apart(m: Motion, accels: Seq<Point>, dt: int, diameter: int)
    requires
        m.pos.len() <= usize::MAX,
        apart(m.pos, diameter),
    ensures
        integrate_spec(m, accels, dt, diameter) == (Motion {
            pos: advance_spec(m.pos, m.last, accels, dt),
            last: m.pos,
        }),
{
    lemma_collide_apart(m.pos, diameter);
}

/// Computes the impulse of one coordinate.
pub fn impulse(a: i64, dt: i64) -> (r: i64)
    requires
        -ACCEL_MAX <= a <= ACCEL_MAX,
        -DT_MAX <= dt <= DT_MAX,
    ensures
        r == impulse_spec(a as int, dt as int),
        abs(r as int) <= 0x100_0000_0000_0000,
{
    let t: i128 = dt as i128;
    assert(0 <= dt * dt <= 0x100_0000_0000_0000_0000) by (nonlinear_arith)
        requires
            -0x10_0000_0000 <= dt <= 0x10_0000_0000,
    ;
    let sq: i128 = t * t;
    assert(-0x100_0000_0000_0000_0000_0000_0000_0000 <= a * sq <= 0x100_0000_0000_0000_0000_0000_0000_0000
    ) by (nonlinear_arith)
        requires
            -0x1_0000_0000_0000 <= a <= 0x1_0000_0000_0000,
            0 <= sq <= 0x100_0000_0000_0000_0000,
    ;
    let prod: i128 = (a as i128) * sq;
    let q: i128 = prod / 0x1_0000_0000_0000_0000;
    proof {
        lemma_trunc_div(prod as int, 0x1_0000_0000_0000_0000);
        assert(q == trunc_div(prod as int, 0x1_0000_0000_0000_0000));
        assert(ONE as int * ONE as int == 0x1_0000_0000_0000_0000);
    }
    q as i64
}

/// One step of the kernel for particles of the given diameter, in place:
/// a collision pass over the positions, then the Verlet update of every
/// particle, which also records the positions that the pass has reached as
/// the previous ones. Index `i` of each sequence speaks of the same
/// particle before and after.
pub fn integrate(
    positions: &mut Vec<Vec2>,
    last_positions: &mut Vec<Vec2>,
    accels: &Vec<Vec2>,
    dt: i64,
    diameter: i64,
)
    requires
        old(positions)@.len() == accels@.len(),
        old(last_positions)@.len() == accels@.len(),
        accels@.len() <= MAX_PARTICLES,
        0 < diameter <= MAX_DIAMETER,
        -DT_MAX <= dt <= DT_MAX,
        all_within(model(old(positions)@), COORD_MAX as int),
        all_within(model(old(last_positions)@), COORD_MAX as int),
        all_within(model(accels@), ACCEL_MAX as int),
    ensures
        final(positions)@.len() == old(positions)@.len(),
        final(last_positions)@.len() == old(last_positions)@.len(),
        (Motion { pos: model(final(positions)@), last: model(final(last_positions)@) })
            == integrate_spec(
            (Motion { pos: model(old(positions)@), last: model(old(last_positions)@) }),
            model(accels@),
            dt as int,
            diameter as int,
        ),
{
    let n = positions.len();
    let ghost start = model(positions@);
    let ghost last0 = model(last_positions@);
    let ghost acc = model(accels@);
    collide(positions, diameter);
    let ghost settled = model(positions@);
    proof {
        lemma_resolve_rows_within(
            start,
            cells_of(start, diameter as int),
            n as nat,
            diameter as int,
            COORD_MAX as int,
        );
        assert(0 <= n * diameter <= 0x80_0000_0000_0000) by (nonlinear_arith)
            requires
                0 <= n <= 0x10_0000,
                0 < diameter <= 0x8_0000_0000,
        ;
    }
    let ghost reach = COORD_MAX as int + 10 * 0x80_0000_0000_0000;
    assert forall|j: int| 0 <= j < n implies (#[trigger] settled[j]).within(reach) by {
        assert(settled[j].within(COORD_MAX as int + 10 * (n * diameter)));
    }
    let mut i: usize = 0;
    while i < n
        invariant
            i <= n,
            n == positions@.len(),
            n == last_positions@.len(),
            n == accels@.len(),
            n == settled.len(),
            n == last0.len(),
            -DT_MAX <= dt <= DT_MAX,
            acc == model(accels@),
            all_within(acc, ACCEL_MAX as int),
            all_within(last0, COORD_MAX as int),
            all_within(settled, reach),
            reach == COORD_MAX as int + 10 * 0x80_0000_0000_0000,
            forall|j: int|
                0 <= j < i ==> (#[trigger] positions@[j])@ == verlet_spec(
                    settled[j],
                    last0[j],
                    acc[j],
                    dt as int,
                ),
            forall|j: int| 0 <= j < i ==> (#[trigger] last_positions@[j])@ == settled[j],
            forall|j: int| i <= j < n ==> (#[trigger] positions@[j])@ == settled[j],
            forall|j: int| i <= j < n ==> (#[trigger] last_positions@[j])@ == last0[j],
        decreases n - i,
    {
        let p = positions[i];
        let l = last_positions[i];
        let a = accels[i];
        assert(settled[i as int].within(reach));
        assert(last0[i as int].within(COORD_MAX as int));
        assert(acc[i as int].within(ACCEL_MAX as int));
        assert(acc[i as int] == a@);
        let gx = impulse(a.x, dt);
        let gy = impulse(a.y, dt);
        let next = Vec2 { x: p.x + (p.x - l.x) + gx, y: p.y + (p.y - l.y) + gy };
        last_positions.set(i, p);
        positions.set(i, next);
        i += 1;
    }
    assert(model(positions@) =~= advance_spec(settled, last0, acc, dt as int));
    assert(model(last_positions@) =~= settled);
}

/// One step of the kernel for particles of the stock radius.
pub fn sim(positions: &mut Vec<Vec2>, last_positions: &mut Vec<Vec2>, accels: &Vec<Vec2>, dt: i64)
    requires
        old(positions)@.len() == accels@.len(),
        old(last_positions)@.len() == accels@.len(),
        accels@.len() <= MAX_PARTICLES,
        -DT_MAX <= dt <= DT_MAX,
        all_within(model(old(positions)@), COORD_MAX as int),
        all_within(model(old(last_positions)@), COORD_MAX as int),
        all_within(model(accels@), ACCEL_MAX as int),
    ensures
        final(positions)@.len() == old(positions)@.len(),
        final(last_positions)@.len() == old(last_positions)@.len(),
        (Motion { pos: model(final(positions)@), last: model(final(last_positions)@) })
            == integrate_spec(
            (Motion { pos: model(old(positions)@), last: model(old(last_positions)@) }),
            model(accels@),
            dt as int,
            2 * BALL_RADIUS as int,
        ),
{
    integrate(positions, last_positions, accels, dt, 2 * BALL_RADIUS);
}

/// The motion that the kernel can advance by one step of length `dt`:
/// as many previous positions and accelerations as positions, no more
/// particles than a pass takes, and every value in its range.
pub open spec fn can_integrate(m: Motion, accels: Seq<Point>, dt: int) -> bool {
    &&& m.pos.len() == accels.len()
    &&& m.last.len() == accels.len()
    &&& accels.len() <= MAX_PARTICLES
    &&& -DT_MAX <= dt <= DT_MAX
    &&& all_within(m.pos, COORD_MAX as int)
    &&& all_within(m.last, COORD_MAX as int)
    &&& all_within(accels, ACCEL_MAX as int)
}

/// One step of the kernel for particles of the stock radius where the
/// kernel can take it, nothing otherwise: the result says which. The
/// lengths are kept either way.
pub fn try_sim(
    positions: &mut Vec<Vec2>,
    last_positions: &mut Vec<Vec2>,
    accels: &Vec<Vec2>,
    dt: i64,
) -> (done: bool)
    ensures
        done <==> can_integrate(
            (Motion { pos: model(old(positions)@), last: model(old(last_positions)@) }),
            model(accels@),
            dt as int,
        ),
        done ==> (Motion { pos: model(final(positions)@), last: model(final(last_positions)@) })
            == integrate_spec(
            (Motion { pos: model(old(positions)@), last: model(old(last_positions)@) }),
            model(accels@),
            dt as int,
            2 * BALL_RADIUS as int,
        ),
        !done ==> final(positions)@ == old(positions)@ && final(last_positions)@ == old(
            last_positions,
        )@,
        final(positions)@.len() == old(positions)@.len(),
        final(last_positions)@.len() == old(last_positions)@.len(),
{
    if positions.len() == accels.len() && last_positions.len() == accels.len() && accels.len()
        <= MAX_PARTICLES && -DT_MAX <= dt && dt <= DT_MAX && all_in_range(positions, COORD_MAX)
        && all_in_range(last_positions, COORD_MAX) && all_in_range(accels, ACCEL_MAX) {
        sim(positions, last_positions, accels, dt);
        true
    } else {
        false
    }
}

/// The motion after one step in which some particles are exempt from
/// having their previous position renewed: an exempt particle advances like
/// every other, and keeps the previous position that it came with.
pub open spec fn integrate_exempt_spec(
    m: Motion,
    accels: Seq<Point>,
    exempt: Seq<bool>,
    dt: int,
    diameter: int,
) -> Motion {
    let plain = integrate_spec(m, accels, dt, diameter);
    Motion {
        pos: plain.pos,
        last: Seq::new(
            plain.last.len(),
            |i: int|
                if exempt[i] {
                    m.last[i]
                } else {
                    plain.last[i]
                },
        ),
    }
}

/// Where no particle is exempt, the step is the plain one.
pub proof fn lemma_none_exempt(
    m: Motion,
    accels: Seq<Point>,
    exempt: Seq<bool>,
    dt: int,
    diameter: int,
)
    requires
        forall|i: int| 0 <= i < exempt.len() ==> !exempt[i],
        exempt.len() == m.pos.len(),
        m.pos.len() <= usize::MAX,
    ensures
        integrate_exempt_spec(m, accels, exempt, dt, diameter) == integrate_spec(
            m,
            accels,
            dt,
            diameter,
        ),
{
    crate::collide::lemma_collide_len(m.pos, diameter);
    let plain = integrate_spec(m, accels, dt, diameter);
    assert(integrate_exempt_spec(m, accels, exempt, dt, diameter).last =~= plain.last);
}

/// One step of the kernel in which the particles marked in `exempt` keep
/// their previous position.
pub fn integrate_exempt(
    positions: &mut Vec<Vec2>,
    last_positions: &mut Vec<Vec2>,
    accels: &Vec<Vec2>,
    exempt: &Vec<bool>,
    dt: i64,
    diameter: i64,
)
    requires
        old(positions)@.len() == accels@.len(),
        old(last_positions)@.len() == accels@.len(),
        exempt@.len() == accels@.len(),
        accels@.len() <= MAX_PARTICLES,
        0 < diameter <= MAX_DIAMETER,
        -DT_MAX <= dt <= DT_MAX,
        all_within(model(old(positions)@), COORD_MAX as int),
        all_within(model(old(last_positions)@), COORD_MAX as int),
        all_within(model(accels@), ACCEL_MAX as int),
    ensures
        final(positions)@.len() == old(positions)@.len(),
        final(last_positions)@.len() == old(last_positions)@.len(),
        (Motion { pos: model(final(positions)@), last: model(final(last_positions)@) })
            == integrate_exempt_spec(
            (Motion { pos: model(old(positions)@), last: model(old(last_positions)@) }),
            model(accels@),
            exempt@,
            dt as int,
            diameter as int,
        ),
{
    let n = positions.len();
    let mut kept: Vec<Vec2> = Vec::new();
    let mut i: usize = 0;
    while i < n
        invariant
            i <= n,
            n == last_positions@.len(),
            kept@.len() == i,
            forall|j: int| 0 <= j < i ==> #[trigger] kept@[j] == last_positions@[j],
        decreases n - i,
    {
        kept.push(last_positions[i]);
        i += 1;
    }
    let ghost last0 = model(last_positions@);
    integrate(positions, last_positions, accels, dt, diameter);
    let ghost plain = model(last_positions@);
    let mut i: usize = 0;
    while i < n
        invariant
            i <= n,
            n == last_positions@.len(),
            n == kept@.len(),
            n == exempt@.len(),
            n == plain.len(),
            n == last0.len(),
            forall|j: int| 0 <= j < n ==> (#[trigger] kept@[j])@ == last0[j],
            forall|j: int|
                0 <= j < i ==> (#[trigger] last_positions@[j])@ == if exempt@[j] {
                    last0[j]
                } else {
                    plain[j]
                },
            forall|j: int| i <= j < n ==> (#[trigger] last_positions@[j])@ == plain[j],
        decreases n - i,
    {
        if exempt[i] {
            last_positions.set(i, kept[i]);
        }
        i += 1;
    }
    assert(model(last_positions@) =~= Seq::new(
        plain.len(),
        |j: int|
            if exempt@[j] {
                last0[j]
            } else {
                plain[j]
            },
    ));
}

} // verus!
