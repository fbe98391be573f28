//! The step orchestrator: what one tick of the host does to the particles.

use vstd::prelude::*;
use crate::boundary::{constrain, constrain_spec};
use crate::collide::{apart, collide_spec, lemma_resolve_rows_within, MAX_PARTICLES};
use crate::pair::MAX_DIAMETER;
use crate::grid::cells_of;
use crate::integrate::{
    advance_spec, integrate, integrate_spec, lemma_integrate_apart, Motion, ACCEL_MAX, BALL_RADIUS,
    DT_MAX,
};
use crate::arith::{abs, lemma_trunc_div, trunc_div};
use crate::vector::{all_in_range, all_within, model, zeros, Point, Vec2, COORD_MAX};

verus! {

/// The largest magnitude of a coordinate of gravity, and of an acceleration
/// that a tick starts with.
pub const GRAVITY_MAX: i64 = 0x8000_0000_0000;

/// The largest container radius.
pub const CONTAINER_MAX: i64 = 0x100_0000_0000;

/// The parameters of a simulation, in fixed point.
#[derive(Clone, Copy, Debug)]
pub struct Config {
    /// The radius of every particle.
    pub ball_radius: i64,
    /// The acceleration that every particle gains in every substep.
    pub gravity: Vec2,
    /// The radius of the container, a disk around the origin.
    pub container_radius: i64,
    /// The number of substeps that a tick is divided into.
    pub substeps: u32,
}

impl Config {
    /// The parameters describe a simulation that the kernel can run.
    pub open spec fn valid(&self) -> bool {
        &&& 0 < self.ball_radius
        &&& 2 * self.ball_radius <= MAX_DIAMETER
        &&& self.ball_radius <= self.container_radius <= CONTAINER_MAX
        &&& self.gravity@.within(GRAVITY_MAX as int)
        &&& 1 <= self.substeps
    }

    /// The distance from the origin that a particle's centre may reach.
    pub open spec fn limit(&self) -> int {
        self.container_radius - self.ball_radius
    }

    /// The diameter of every particle.
    pub open spec fn diameter(&self) -> int {
        2 * self.ball_radius
    }
}

/// The state that a tick works on: position, previous position and
/// accumulated acceleration of every particle.
pub ghost struct World {
    pub pos: Seq<Point>,
    pub last: Seq<Point>,
    pub acc: Seq<Point>,
}

impl World {
    /// A state that a tick may start from.
    pub open spec fn ready(self) -> bool {
        &&& self.pos.len() == self.acc.len()
        &&& self.last.len() == self.acc.len()
        &&& self.acc.len() <= MAX_PARTICLES
        &&& all_within(self.last, COORD_MAX as int)
        &&& all_within(self.acc, GRAVITY_MAX as int)
    }
}

/// Every acceleration with gravity added.
pub open spec fn add_gravity_spec(acc: Seq<Point>, g: Point) -> Seq<Point> {
    Seq::new(acc.len(), |i: int| acc[i].plus(g))
}

/// Every position constrained to the container.
pub open spec fn constrain_all_spec(ps: Seq<Point>, limit: int) -> Seq<Point> {
    Seq::new(ps.len(), |i: int| constrain_spec(ps[i], limit))
}

/// The state after one substep of length `dt`: gravity is accumulated, the
/// positions are constrained to the container, the kernel advances the
/// particles, and the accumulated accelerations are cleared.
pub open spec fn substep_spec(w: World, cfg: Config, dt: int) -> World {
    let acc = add_gravity_spec(w.acc, cfg.gravity@);
    let pos = constrain_all_spec(w.pos, cfg.limit());
    let m = integrate_spec(Motion { pos, last: w.last }, acc, dt, cfg.diameter());
    World { pos: m.pos, last: m.last, acc: zeros(w.acc.len()) }
}

/// The state after `k` substeps, one after the other.
pub open spec fn substeps_spec(w: World, cfg: Config, dt: int, k: nat) -> World
    decreases k,
{
    if k == 0 {
        w
    } else {
        substep_spec(substeps_spec(w, cfg, dt, (k - 1) as nat), cfg, dt)
    }
}

/// The state after one tick of length `dt_frame`: as many substeps as the
/// configuration asks for, each of an equal share of the tick.
pub open spec fn step_spec(w: World, cfg: Config, dt_frame: int) -> World {
    substeps_spec(w, cfg, trunc_div(dt_frame, cfg.substeps as int), cfg.substeps as nat)
}

/// A substep among particles of which no two overlap once they are
/// constrained moves every particle on its own: the constrained position
/// becomes the previous one, and the particle advances from it by the
/// velocity that the two imply and by the impulse of its acceleration
/// with gravity added.
pub proof fn lemma_substep_apart(w: World, cfg: Config, dt: int)
    requires
        w.pos.len() <= usize::MAX,
        apart(constrain_all_spec(w.pos, cfg.limit()), cfg.diameter()),
    ensures
        substep_spec(w, cfg, dt) == (World {
            pos: advance_spec(
                constrain_all_spec(w.pos, cfg.limit()),
                w.last,
                add_gravity_spec(w.acc, cfg.gravity@),
                dt,
            ),
            last: constrain_all_spec(w.pos, cfg.limit()),
            acc: zeros(w.acc.len()),
        }),
{
    lemma_integrate_apart(
        Motion { pos: constrain_all_spec(w.pos, cfg.limit()), last: w.last },
        add_gravity_spec(w.acc, cfg.gravity@),
        dt,
        cfg.diameter(),
    );
}

/// The state that the three sequences of a tick hold.
pub open spec fn world_of(positions: Seq<Vec2>, last_positions: Seq<Vec2>, accels: Seq<Vec2>)
    -> World {
    World { pos: model(positions), last: model(last_positions), acc: model(accels) }
}

/// Whether a tick may start from the state that the three sequences hold.
pub fn ready(positions: &Vec<Vec2>, last_positions: &Vec<Vec2>, accels: &Vec<Vec2>) -> (b: bool)
    ensures
        b == world_of(positions@, last_positions@, accels@).ready(),
{
    positions.len() == accels.len() && last_positions.len() == accels.len() && accels.len()
        <= MAX_PARTICLES && all_in_range(last_positions, COORD_MAX) && all_in_range(
        accels,
        GRAVITY_MAX,
    )
}

/// Adds gravity to every accumulated acceleration.
pub fn accumulate_gravity(accels: &mut Vec<Vec2>, gravity: Vec2)
    requires
        all_within(model(old(accels)@), GRAVITY_MAX as int),
        gravity@.within(GRAVITY_MAX as int),
    ensures
        final(accels)@.len() == old(accels)@.len(),
        model(final(accels)@) == add_gravity_spec(model(old(accels)@), gravity@),
        all_within(model(final(accels)@), ACCEL_MAX as int),
{
    let n = accels.len();
    let ghost start = model(accels@);
    let mut i: usize = 0;
    while i < n
        invariant
            i <= n,
            n == accels@.len(),
            n == start.len(),
            all_within(start, GRAVITY_MAX as int),
            gravity@.within(GRAVITY_MAX as int),
            forall|j: int| 0 <= j < i ==> (#[trigger] accels@[j])@ == start[j].plus(gravity@),
            forall|j: int| i <= j < n ==> (#[trigger] accels@[j])@ == start[j],
        decreases n - i,
    {
        let a = accels[i];
        assert(start[i as int].within(GRAVITY_MAX as int));
        accels.set(i, Vec2 { x: a.x + gravity.x, y: a.y + gravity.y });
        i += 1;
    }
    assert(model(accels@) =~= add_gravity_spec(start, gravity@));
    assert forall|j: int| 0 <= j < n implies (#[trigger] model(accels@)[j]).within(
        ACCEL_MAX as int,
    ) by {
        assert(start[j].within(GRAVITY_MAX as int));
    }
}

/// Constrains every position to the container.
pub fn constrain_all(positions: &mut Vec<Vec2>, container_radius: i64, particle_radius: i64)
    requires
        0 <= particle_radius <= container_radius,
    ensures
        final(positions)@.len() == old(positions)@.len(),
        model(final(positions)@) == constrain_all_spec(
            model(old(positions)@),
            container_radius - particle_radius,
        ),
        all_within(model(final(positions)@), container_radius - particle_radius),
{
    let n = positions.len();
    let ghost start = model(positions@);
    let ghost limit = container_radius - particle_radius;
    let mut i: usize = 0;
    while i < n
        invariant
            i <= n,
            n == positions@.len(),
            n == start.len(),
            0 <= particle_radius <= container_radius,
            limit == container_radius - particle_radius,
            forall|j: int|
                0 <= j < i ==> (#[trigger] positions@[j])@ == constrain_spec(start[j], limit),
            forall|j: int| 0 <= j < i ==> (#[trigger] positions@[j])@.within(limit),
            forall|j: int| i <= j < n ==> (#[trigger] positions@[j])@ == start[j],
        decreases n - i,
    {
        let p = positions[i];
        positions.set(i, constrain(p, container_radius, particle_radius));
        i += 1;
    }
    assert(model(positions@) =~= constrain_all_spec(start, limit));
    assert forall|j: int| 0 <= j < n implies (#[trigger] model(positions@)[j]).within(limit) by {
        assert(positions@[j]@.within(limit));
    }
}

/// Clears every accumulated acceleration.
pub fn reset(accels: &mut Vec<Vec2>)
    ensures
        final(accels)@.len() == old(accels)@.len(),
        model(final(accels)@) == zeros(old(accels)@.len()),
{
    let n = accels.len();
    let mut i: usize = 0;
    while i < n
        invariant
            i <= n,
            n == accels@.len(),
            forall|j: int| 0 <= j < i ==> (#[trigger] accels@[j])@ == Point::zero(),
        decreases n - i,
    {
        accels.set(i, Vec2 { x: 0, y: 0 });
        i += 1;
    }
    assert(model(accels@) =~= zeros(n as nat));
}

impl Config {
    /// The parameters of the stock simulation: particles of radius 0.2 in
    /// a container of radius 3, gravity 9.8 downward, one substep a tick.
    pub fn standard() -> (c: Config)
        ensures
            c.valid(),
            c == (Config {
                ball_radius: BALL_RADIUS,
                gravity: Vec2 { x: 0i64, y: (-42_090_679_501i64) },
                container_radius: 12_884_901_888i64,
                substeps: 1,
            }),
    {
        Config {
            ball_radius: BALL_RADIUS,
            gravity: Vec2 { x: 0, y: -42_090_679_501 },
            container_radius: 12_884_901_888,
            substeps: 1,
        }
    }

    /// Whether the kernel can run with these parameters.
    pub fn is_valid(&self) -> (b: bool)
        ensures
            b == self.valid(),
    {
        0 < self.ball_radius && self.ball_radius <= MAX_DIAMETER / 2 && self.ball_radius
            <= self.container_radius && self.container_radius <= CONTAINER_MAX
            && -GRAVITY_MAX <= self.gravity.x && self.gravity.x <= GRAVITY_MAX && -GRAVITY_MAX
            <= self.gravity.y && self.gravity.y <= GRAVITY_MAX && 1 <= self.substeps
    }

    /// The configuration with the given parameters, if the kernel can run
    /// with them.
    pub fn new(ball_radius: i64, gravity: Vec2, container_radius: i64, substeps: u32) -> (r:
        Option<Config>)
        ensures
            r.is_some() <==> (Config { ball_radius, gravity, container_radius, substeps }).valid(),
            r.is_some() ==> r.unwrap() == (Config {
                ball_radius,
                gravity,
                container_radius,
                substeps,
            }),
    {
        let c = Config { ball_radius, gravity, container_radius, substeps };
        if c.is_valid() {
            Some(c)
        } else {
            None
        }
    }

    /// One substep of length `dt`, in place.
    pub fn substep(
        &self,
        positions: &mut Vec<Vec2>,
        last_positions: &mut Vec<Vec2>,
        accels: &mut Vec<Vec2>,
        dt: i64,
    )
        requires
            self.valid(),
            world_of(old(positions)@, old(last_positions)@, old(accels)@).ready(),
            -DT_MAX <= dt <= DT_MAX,
        ensures
            world_of(final(positions)@, final(last_positions)@, final(accels)@) == substep_spec(
                world_of(old(positions)@, old(last_positions)@, old(accels)@),
                *self,
                dt as int,
            ),
            world_of(final(positions)@, final(last_positions)@, final(accels)@).ready(),
            final(positions)@.len() == old(positions)@.len(),
            final(last_positions)@.len() == old(last_positions)@.len(),
            final(accels)@.len() == old(accels)@.len(),
    {
        let ghost n = accels@.len();
        accumulate_gravity(accels, self.gravity);
        constrain_all(positions, self.container_radius, self.ball_radius);
        let ghost held = model(positions@);
        assert forall|j: int| 0 <= j < held.len() implies (#[trigger] held[j]).within(
            COORD_MAX as int,
        ) by {
            assert(held[j].within(self.limit()));
        }
        integrate(positions, last_positions, accels, dt, 2 * self.ball_radius);
        proof {
            let settled = collide_spec(held, self.diameter());
            lemma_resolve_rows_within(
                held,
                cells_of(held, self.diameter()),
                n,
                self.diameter(),
                self.limit(),
            );
            assert(0 <= n * self.diameter() <= 0x80_0000_0000_0000) by (nonlinear_arith)
                requires
                    0 <= n <= 0x10_0000,
                    0 < self.diameter() <= 0x8_0000_0000,
            ;
            assert forall|j: int| 0 <= j < settled.len() implies (#[trigger] settled[j]).within(
                COORD_MAX as int,
            ) by {
                assert(settled[j].within(self.limit() + 10 * (n * self.diameter())));
            }
        }
        reset(accels);
    }

    /// One tick of length `dt_frame`, in place: the substeps of the
    /// configuration, one after the other. Index `i` of each sequence speaks
    /// of the same particle before and after, and the state that is left is
    /// one that the next tick may start from.
    pub fn step(
        &self,
        positions: &mut Vec<Vec2>,
        last_positions: &mut Vec<Vec2>,
        accels: &mut Vec<Vec2>,
        dt_frame: i64,
    )
        requires
            self.valid(),
            world_of(old(positions)@, old(last_positions)@, old(accels)@).ready(),
            -DT_MAX <= dt_frame <= DT_MAX,
        ensures
            world_of(final(positions)@, final(last_positions)@, final(accels)@) == step_spec(
                world_of(old(positions)@, old(last_positions)@, old(accels)@),
                *self,
                dt_frame as int,
            ),
            world_of(final(positions)@, final(last_positions)@, final(accels)@).ready(),
            final(positions)@.len() == old(positions)@.len(),
            final(last_positions)@.len() == old(last_positions)@.len(),
            final(accels)@.len() == old(accels)@.len(),
            model(final(accels)@) == zeros(old(accels)@.len()),
    {
        let ghost start = world_of(positions@, last_positions@, accels@);
        let dt: i64 = dt_frame / (self.substeps as i64);
        proof {
            lemma_trunc_div(dt_frame as int, self.substeps as int);
            assert(dt == trunc_div(dt_frame as int, self.substeps as int));
            assert(abs(dt as int) <= abs(dt_frame as int))
                by (nonlinear_arith)
                requires
                    abs(dt as int) * self.substeps <= abs(
                        dt_frame as int,
                    ),
                    self.substeps >= 1,
            ;
        }
        let mut k: u32 = 0;
        while k < self.substeps
            invariant
                k <= self.substeps,
                self.valid(),
                -DT_MAX <= dt <= DT_MAX,
                start.acc.len() == accels@.len(),
                positions@.len() == accels@.len(),
                last_positions@.len() == accels@.len(),
                world_of(positions@, last_positions@, accels@).ready(),
                world_of(positions@, last_positions@, accels@) == substeps_spec(
                    start,
                    *self,
                    dt as int,
                    k as nat,
                ),
                k > 0 ==> model(accels@) == zeros(start.acc.len()),
            decreases self.substeps - k,
        {
            self.substep(positions, last_positions, accels, dt);
            k += 1;
        }
    }

    /// One tick where the kernel can run it, nothing otherwise: the result
    /// says which.
    pub fn try_step(
        &self,
        positions: &mut Vec<Vec2>,
        last_positions: &mut Vec<Vec2>,
        accels: &mut Vec<Vec2>,
        dt_frame: i64,
    ) -> (done: bool)
        ensures
            done <==> self.valid() && world_of(
                old(positions)@,
                old(last_positions)@,
                old(accels)@,
            ).ready() && -DT_MAX <= dt_frame <= DT_MAX,
            done ==> world_of(final(positions)@, final(last_positions)@, final(accels)@)
                == step_spec(
                world_of(old(positions)@, old(last_positions)@, old(accels)@),
                *self,
                dt_frame as int,
            ),
            !done ==> final(positions)@ == old(positions)@ && final(last_positions)@ == old(
                last_positions,
            )@ && final(accels)@ == old(accels)@,
            done ==> world_of(final(positions)@, final(last_positions)@, final(accels)@).ready(),
            done ==> model(final(accels)@) == zeros(old(accels)@.len()),
            final(positions)@.len() == old(positions)@.len(),
            final(last_positions)@.len() == old(last_positions)@.len(),
            final(accels)@.len() == old(accels)@.len(),
    {
        if self.is_valid() && ready(positions, last_positions, accels) && -DT_MAX <= dt_frame
            && dt_frame <= DT_MAX {
            self.step(positions, last_positions, accels, dt_frame);
            true
        } else {
            false
        }
    }
}

} // verus!
