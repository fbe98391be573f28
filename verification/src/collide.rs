//! The collision resolver: one relaxation pass that pushes overlapping
//! pairs of particles apart.

use vstd::prelude::*;
use crate::grid::{cells_of, lemma_neighbors, neighbors_spec, Cell, SpatialIndex};
use crate::pair::{
    lemma_push_separates, lemma_push_small, parted, push, push_spec, MAX_DIAMETER, ROOT_SCALE,
};
use crate::arith::{abs, lemma_shortened};
use crate::vector::{all_within, lemma_total_update, model, total, Point, Vec2};

verus! {

/// The largest number of particles that one pass accepts.
pub const MAX_PARTICLES: usize = 0x10_0000;

/// The positions after the pair `(i, j)` has been resolved.
pub open spec fn resolve_pair(ps: Seq<Point>, i: int, j: int, diameter: int) -> Seq<Point> {
    let c = push_spec(ps[i].minus(ps[j]), diameter);
    ps.update(i, ps[i].plus(c)).update(j, ps[j].minus(c))
}

/// The positions after particle `i` has met the first `k` of its neighbour
/// candidates. A pair is resolved from its lower index only, so that no
/// pair is resolved twice in a pass.
pub open spec fn resolve_row(ps: Seq<Point>, i: usize, nbrs: Seq<usize>, k: nat, diameter: int)
    -> Seq<Point>
    decreases k,
{
    if k == 0 {
        ps
    } else {
        let prev = resolve_row(ps, i, nbrs, (k - 1) as nat, diameter);
        let j = nbrs[k - 1];
        if j > i {
            resolve_pair(prev, i as int, j as int, diameter)
        } else {
            prev
        }
    }
}

/// The positions after the particles below `n` have met their neighbour
/// candidates, which are those of the snapshot `cells`.
pub open spec fn resolve_rows(ps: Seq<Point>, cells: Seq<Cell>, n: nat, diameter: int) -> Seq<
    Point,
>
    decreases n,
{
    if n == 0 {
        ps
    } else {
        let prev = resolve_rows(ps, cells, (n - 1) as nat, diameter);
        let nbrs = neighbors_spec(cells, (n - 1) as usize);
        resolve_row(prev, (n - 1) as usize, nbrs, nbrs.len(), diameter)
    }
}

/// The positions after one collision pass: the grid is laid over the
/// positions as they are before the pass, with cells as wide as a
/// particle, and the particles are taken in rising order.
pub open spec fn collide_spec(ps: Seq<Point>, diameter: int) -> Seq<Point> {
    resolve_rows(ps, cells_of(ps, diameter), ps.len(), diameter)
}

/// Resolving a pair moves the two particles by opposite displacements, so
/// their midpoint stays, and moves nothing else.
pub proof fn lemma_resolve_pair(ps: Seq<Point>, i: int, j: int, diameter: int)
    requires
        0 <= i < ps.len(),
        0 <= j < ps.len(),
        i != j,
    ensures
        resolve_pair(ps, i, j, diameter).len() == ps.len(),
        resolve_pair(ps, i, j, diameter)[i].plus(resolve_pair(ps, i, j, diameter)[j])
            == ps[i].plus(ps[j]),
        resolve_pair(ps, i, j, diameter)[i].minus(ps[i]) == push_spec(
            ps[i].minus(ps[j]),
            diameter,
        ),
        forall|m: int|
            0 <= m < ps.len() && m != i && m != j ==> #[trigger] resolve_pair(
                ps,
                i,
                j,
                diameter,
            )[m] == ps[m],
{
}

/// Resolving a pair moves no coordinate by more than the diameter.
pub proof fn lemma_resolve_pair_within(ps: Seq<Point>, i: int, j: int, diameter: int, b: int)
    requires
        0 <= i < ps.len(),
        0 <= j < ps.len(),
        i != j,
        diameter > 0,
        all_within(ps, b),
    ensures
        all_within(resolve_pair(ps, i, j, diameter), b + diameter),
{
    lemma_push_small(ps[i].minus(ps[j]), diameter);
    let r = resolve_pair(ps, i, j, diameter);
    assert forall|m: int| 0 <= m < r.len() implies (#[trigger] r[m]).within(b + diameter) by {
        assert(ps[m].within(b));
    }
}

/// After `k` meetings no coordinate has moved by more than `k` diameters.
pub proof fn lemma_resolve_row_within(
    ps: Seq<Point>,
    i: usize,
    nbrs: Seq<usize>,
    k: nat,
    diameter: int,
    b: int,
)
    requires
        i < ps.len(),
        k <= nbrs.len(),
        forall|t: int| 0 <= t < nbrs.len() ==> nbrs[t] < ps.len(),
        diameter > 0,
        all_within(ps, b),
    ensures
        resolve_row(ps, i, nbrs, k, diameter).len() == ps.len(),
        all_within(resolve_row(ps, i, nbrs, k, diameter), b + k * diameter),
    decreases k,
{
    if k == 0 {
    } else {
        lemma_resolve_row_within(ps, i, nbrs, (k - 1) as nat, diameter, b);
        let prev = resolve_row(ps, i, nbrs, (k - 1) as nat, diameter);
        let j = nbrs[k - 1];
        assert(k * diameter == (k - 1) * diameter + diameter) by (nonlinear_arith);
        if j > i {
            lemma_resolve_pair_within(prev, i as int, j as int, diameter, b + (k - 1) * diameter);
        } else {
            assert forall|m: int| 0 <= m < prev.len() implies (#[trigger] prev[m]).within(
                b + k * diameter,
            ) by {
                assert(prev[m].within(b + (k - 1) * diameter));
            }
        }
    }
}

/// The length of every candidate list of the snapshot is at most nine
/// times the number of particles, and every candidate is a particle.
pub proof fn lemma_candidates(cells: Seq<Cell>, i: usize)
    requires
        i < cells.len(),
        cells.len() <= usize::MAX,
    ensures
        neighbors_spec(cells, i).len() <= 9 * cells.len(),
        forall|t: int|
            0 <= t < neighbors_spec(cells, i).len() ==> #[trigger] neighbors_spec(cells, i)[t]
                < cells.len() && neighbors_spec(cells, i)[t] != i,
{
    lemma_neighbors(cells, i);
    let nbrs = neighbors_spec(cells, i);
    assert forall|t: int| 0 <= t < nbrs.len() implies #[trigger] nbrs[t] < cells.len() && nbrs[t]
        != i by {
        assert(nbrs.contains(nbrs[t]));
    }
}

/// What a row does to particles that each have a bound of their own: the
/// particle of the row drifts by at most one diameter for each meeting,
/// every other particle by at most one diameter in all, and a particle
/// that was not met stays where it was.
proof fn lemma_resolve_row_drift(
    ps: Seq<Point>,
    i: usize,
    nbrs: Seq<usize>,
    k: nat,
    diameter: int,
    bs: Seq<int>,
)
    requires
        i < ps.len(),
        k <= nbrs.len(),
        nbrs.no_duplicates(),
        forall|t: int| 0 <= t < nbrs.len() ==> nbrs[t] < ps.len() && nbrs[t] != i,
        diameter > 0,
        bs.len() == ps.len(),
        forall|m: int| 0 <= m < ps.len() ==> (#[trigger] ps[m]).within(bs[m]),
    ensures
        resolve_row(ps, i, nbrs, k, diameter).len() == ps.len(),
        resolve_row(ps, i, nbrs, k, diameter)[i as int].within(bs[i as int] + k * diameter),
        forall|m: int|
            0 <= m < ps.len() && m != i ==> (#[trigger] resolve_row(
                ps,
                i,
                nbrs,
                k,
                diameter,
            )[m]).within(bs[m] + diameter),
        forall|m: int|
            0 <= m < ps.len() && m != i && (forall|t: int| 0 <= t < k ==> nbrs[t] != m)
                ==> #[trigger] resolve_row(ps, i, nbrs, k, diameter)[m] == ps[m],
    decreases k,
{
    if k == 0 {
        assert(k * diameter == 0) by (nonlinear_arith)
            requires
                k == 0,
        ;
        assert forall|m: int| 0 <= m < ps.len() && m != i implies (#[trigger] ps[m]).within(
            bs[m] + diameter,
        ) by {
            assert(ps[m].within(bs[m]));
        }
    } else {
        lemma_resolve_row_drift(ps, i, nbrs, (k - 1) as nat, diameter, bs);
        let prev = resolve_row(ps, i, nbrs, (k - 1) as nat, diameter);
        let now = resolve_row(ps, i, nbrs, k, diameter);
        let j = nbrs[k - 1];
        assert(k * diameter == (k - 1) * diameter + diameter) by (nonlinear_arith);
        if j > i {
            lemma_push_small(prev[i as int].minus(prev[j as int]), diameter);
            assert(forall|t: int| 0 <= t < k - 1 ==> nbrs[t] != j);
            assert(prev[j as int] == ps[j as int]);
            assert(ps[j as int].within(bs[j as int]));
            assert forall|m: int| 0 <= m < ps.len() && m != i implies (#[trigger] now[m]).within(
                bs[m] + diameter,
            ) by {
                if m != j {
                    assert(now[m] == prev[m]);
                }
            }
            assert forall|m: int|
                0 <= m < ps.len() && m != i && (forall|t: int|
                    0 <= t < k ==> nbrs[t] != m) implies #[trigger] now[m] == ps[m] by {
                assert(nbrs[k - 1] != m);
                assert(now[m] == prev[m]);
            }
        }
    }
}

/// The bound of particle `m` after `r` rows, where every coordinate was
/// within `b` of zero before the pass.
pub open spec fn drift_bound(b: int, r: nat, m: int, len: nat, diameter: int) -> int {
    b + r * diameter + if m < r {
        9 * (len * diameter)
    } else {
        0
    }
}

proof fn lemma_resolve_rows_drift(
    ps: Seq<Point>,
    cells: Seq<Cell>,
    n: nat,
    diameter: int,
    b: int,
)
    requires
        cells.len() == ps.len(),
        ps.len() <= usize::MAX,
        n <= ps.len(),
        diameter > 0,
        all_within(ps, b),
    ensures
        resolve_rows(ps, cells, n, diameter).len() == ps.len(),
        forall|m: int|
            0 <= m < ps.len() ==> (#[trigger] resolve_rows(ps, cells, n, diameter)[m]).within(
                drift_bound(b, n, m, ps.len(), diameter),
            ),
    decreases n,
{
    let len = ps.len();
    if n == 0 {
        assert(n * diameter == 0) by (nonlinear_arith)
            requires
                n == 0,
        ;
        assert forall|m: int| 0 <= m < ps.len() implies (#[trigger] ps[m]).within(
            drift_bound(b, n, m, len, diameter),
        ) by {
            assert(ps[m].within(b));
        }
    } else {
        lemma_resolve_rows_drift(ps, cells, (n - 1) as nat, diameter, b);
        let prev = resolve_rows(ps, cells, (n - 1) as nat, diameter);
        let i = (n - 1) as usize;
        let nbrs = neighbors_spec(cells, i);
        lemma_candidates(cells, i);
        lemma_neighbors(cells, i);
        let bs = Seq::new(len, |m: int| drift_bound(b, (n - 1) as nat, m, len, diameter));
        lemma_resolve_row_drift(prev, i, nbrs, nbrs.len(), diameter, bs);
        let now = resolve_rows(ps, cells, n, diameter);
        assert(n * diameter == (n - 1) * diameter + diameter) by (nonlinear_arith);
        assert(nbrs.len() * diameter <= 9 * (len * diameter)) by (nonlinear_arith)
            requires
                nbrs.len() <= 9 * len,
                diameter > 0,
        ;
        assert forall|m: int| 0 <= m < ps.len() implies (#[trigger] now[m]).within(
            drift_bound(b, n, m, len, diameter),
        ) by {
            if m == i {
                assert(now[m].within(bs[m] + nbrs.len() * diameter));
            } else {
                assert(now[m].within(bs[m] + diameter));
            }
        }
    }
}

/// After any number of rows of a pass no coordinate has moved by more than
/// ten diameters for each particle.
pub proof fn lemma_resolve_rows_within(
    ps: Seq<Point>,
    cells: Seq<Cell>,
    n: nat,
    diameter: int,
    b: int,
)
    requires
        cells.len() == ps.len(),
        ps.len() <= usize::MAX,
        n <= ps.len(),
        diameter > 0,
        all_within(ps, b),
    ensures
        resolve_rows(ps, cells, n, diameter).len() == ps.len(),
        all_within(resolve_rows(ps, cells, n, diameter), b + 10 * (ps.len() * diameter)),
{
    lemma_resolve_rows_drift(ps, cells, n, diameter, b);
    let len = ps.len();
    let now = resolve_rows(ps, cells, n, diameter);
    assert(n * diameter <= len * diameter) by (nonlinear_arith)
        requires
            n <= len,
            diameter > 0,
    ;
    assert(0 <= len * diameter) by (nonlinear_arith)
        requires
            0 <= len,
            diameter > 0,
    ;
    assert forall|m: int| 0 <= m < now.len() implies (#[trigger] now[m]).within(
        b + 10 * (len * diameter),
    ) by {
        assert(now[m].within(drift_bound(b, n, m, len, diameter)));
    }
}

/// A pass keeps the number of particles.
pub proof fn lemma_collide_len(ps: Seq<Point>, diameter: int)
    requires
        ps.len() <= usize::MAX,
    ensures
        collide_spec(ps, diameter).len() == ps.len(),
{
    lemma_rows_len(ps, cells_of(ps, diameter), ps.len(), diameter);
}

proof fn lemma_row_len(ps: Seq<Point>, i: usize, nbrs: Seq<usize>, k: nat, diameter: int)
    requires
        i < ps.len(),
        k <= nbrs.len(),
        forall|t: int| 0 <= t < nbrs.len() ==> nbrs[t] < ps.len(),
    ensures
        resolve_row(ps, i, nbrs, k, diameter).len() == ps.len(),
    decreases k,
{
    if k > 0 {
        lemma_row_len(ps, i, nbrs, (k - 1) as nat, diameter);
    }
}

proof fn lemma_rows_len(ps: Seq<Point>, cells: Seq<Cell>, n: nat, diameter: int)
    requires
        cells.len() == ps.len(),
        ps.len() <= usize::MAX,
        n <= ps.len(),
    ensures
        resolve_rows(ps, cells, n, diameter).len() == ps.len(),
    decreases n,
{
    if n > 0 {
        lemma_rows_len(ps, cells, (n - 1) as nat, diameter);
        lemma_candidates(cells, (n - 1) as usize);
        let nbrs = neighbors_spec(cells, (n - 1) as usize);
        lemma_row_len(
            resolve_rows(ps, cells, (n - 1) as nat, diameter),
            (n - 1) as usize,
            nbrs,
            nbrs.len(),
            diameter,
        );
    }
}

proof fn lemma_resolve_row_total(ps: Seq<Point>, i: usize, nbrs: Seq<usize>, k: nat, diameter: int)
    requires
        i < ps.len(),
        k <= nbrs.len(),
        forall|t: int| 0 <= t < nbrs.len() ==> nbrs[t] < ps.len(),
    ensures
        total(resolve_row(ps, i, nbrs, k, diameter)) == total(ps),
    decreases k,
{
    if k > 0 {
        lemma_resolve_row_total(ps, i, nbrs, (k - 1) as nat, diameter);
        lemma_row_len(ps, i, nbrs, (k - 1) as nat, diameter);
        let prev = resolve_row(ps, i, nbrs, (k - 1) as nat, diameter);
        let j = nbrs[k - 1];
        if j > i {
            let c = push_spec(prev[i as int].minus(prev[j as int]), diameter);
            let mid = prev.update(i as int, prev[i as int].plus(c));
            lemma_total_update(prev, i as int, prev[i as int].plus(c));
            lemma_total_update(mid, j as int, prev[j as int].minus(c));
        }
    }
}

proof fn lemma_resolve_rows_total(ps: Seq<Point>, cells: Seq<Cell>, n: nat, diameter: int)
    requires
        cells.len() == ps.len(),
        ps.len() <= usize::MAX,
        n <= ps.len(),
    ensures
        total(resolve_rows(ps, cells, n, diameter)) == total(ps),
    decreases n,
{
    if n > 0 {
        lemma_resolve_rows_total(ps, cells, (n - 1) as nat, diameter);
        lemma_rows_len(ps, cells, (n - 1) as nat, diameter);
        let i = (n - 1) as usize;
        lemma_candidates(cells, i);
        let nbrs = neighbors_spec(cells, i);
        lemma_resolve_row_total(
            resolve_rows(ps, cells, (n - 1) as nat, diameter),
            i,
            nbrs,
            nbrs.len(),
            diameter,
        );
    }
}

/// A pass moves the particles of each pair by opposite displacements, so
/// the sum of all positions is the same after it as before.
pub proof fn lemma_collide_total(ps: Seq<Point>, diameter: int)
    requires
        ps.len() <= usize::MAX,
    ensures
        total(collide_spec(ps, diameter)) == total(ps),
{
    lemma_resolve_rows_total(ps, cells_of(ps, diameter), ps.len(), diameter);
}

/// No two particles overlap: every pair is at least `diameter` apart.
pub open spec fn apart(ps: Seq<Point>, diameter: int) -> bool {
    forall|i: int, j: int|
        0 <= i < ps.len() && 0 <= j < ps.len() && i != j ==> (#[trigger] ps[i].minus(
            #[trigger] ps[j],
        )).norm_sq() >= diameter * diameter
}

proof fn lemma_resolve_row_apart(ps: Seq<Point>, i: usize, nbrs: Seq<usize>, k: nat, diameter: int)
    requires
        i < ps.len(),
        k <= nbrs.len(),
        forall|t: int| 0 <= t < nbrs.len() ==> nbrs[t] < ps.len(),
        apart(ps, diameter),
    ensures
        resolve_row(ps, i, nbrs, k, diameter) == ps,
    decreases k,
{
    if k > 0 {
        lemma_resolve_row_apart(ps, i, nbrs, (k - 1) as nat, diameter);
        let j = nbrs[k - 1];
        if j > i {
            assert(ps[i as int].minus(ps[j as int]).norm_sq() >= diameter * diameter);
            assert(resolve_pair(ps, i as int, j as int, diameter) =~= ps);
        }
    }
}

proof fn lemma_resolve_rows_apart(ps: Seq<Point>, cells: Seq<Cell>, n: nat, diameter: int)
    requires
        cells.len() == ps.len(),
        ps.len() <= usize::MAX,
        n <= ps.len(),
        apart(ps, diameter),
    ensures
        resolve_rows(ps, cells, n, diameter) == ps,
    decreases n,
{
    if n > 0 {
        lemma_resolve_rows_apart(ps, cells, (n - 1) as nat, diameter);
        let i = (n - 1) as usize;
        lemma_candidates(cells, i);
        let nbrs = neighbors_spec(cells, i);
        lemma_resolve_row_apart(ps, i, nbrs, nbrs.len(), diameter);
    }
}

/// A pass over particles of which no two overlap moves nothing.
pub proof fn lemma_collide_apart(ps: Seq<Point>, diameter: int)
    requires
        ps.len() <= usize::MAX,
        apart(ps, diameter),
    ensures
        collide_spec(ps, diameter) == ps,
{
    lemma_resolve_rows_apart(ps, cells_of(ps, diameter), ps.len(), diameter);
}

/// Every pair of particles but the pair of `i` and `j` is at least
/// `diameter` apart.
pub open spec fn apart_but(ps: Seq<Point>, i: int, j: int, diameter: int) -> bool {
    forall|a: int, b: int|
        0 <= a < ps.len() && 0 <= b < ps.len() && a != b && !(a == i && b == j) && !(a == j && b
            == i) ==> (#[trigger] ps[a].minus(#[trigger] ps[b])).norm_sq() >= diameter * diameter
}

/// A row that does not meet the one overlapping pair moves nothing.
proof fn lemma_row_idle(
    x: Seq<Point>,
    r: usize,
    nbrs: Seq<usize>,
    k: nat,
    diameter: int,
    i: int,
    j: int,
)
    requires
        r < x.len(),
        k <= nbrs.len(),
        forall|t: int| 0 <= t < nbrs.len() ==> nbrs[t] < x.len() && nbrs[t] != r,
        apart_but(x, i, j, diameter),
        i < j,
        r != i,
    ensures
        resolve_row(x, r, nbrs, k, diameter) == x,
    decreases k,
{
    if k > 0 {
        lemma_row_idle(x, r, nbrs, (k - 1) as nat, diameter, i, j);
        let m = nbrs[k - 1];
        if m > r {
            assert(x[r as int].minus(x[m as int]).norm_sq() >= diameter * diameter);
            assert(resolve_pair(x, r as int, m as int, diameter) =~= x);
        }
    }
}

/// The row of the lower particle of the one overlapping pair resolves that
/// pair when it meets it, and moves nothing before or after.
proof fn lemma_row_pair(ps: Seq<Point>, i: usize, j: usize, nbrs: Seq<usize>, k: nat, diameter: int)
    requires
        i < j < ps.len(),
        k <= nbrs.len(),
        nbrs.no_duplicates(),
        forall|t: int| 0 <= t < nbrs.len() ==> nbrs[t] < ps.len() && nbrs[t] != i,
        apart_but(ps, i as int, j as int, diameter),
        apart_but(resolve_pair(ps, i as int, j as int, diameter), i as int, j as int, diameter),
    ensures
        resolve_row(ps, i, nbrs, k, diameter) == if exists|t: int| 0 <= t < k && nbrs[t] == j {
            resolve_pair(ps, i as int, j as int, diameter)
        } else {
            ps
        },
    decreases k,
{
    let after = resolve_pair(ps, i as int, j as int, diameter);
    if k > 0 {
        lemma_row_pair(ps, i, j, nbrs, (k - 1) as nat, diameter);
        let prev = resolve_row(ps, i, nbrs, (k - 1) as nat, diameter);
        let m = nbrs[k - 1];
        if m == j {
            assert(forall|t: int| 0 <= t < k - 1 ==> nbrs[t] != j);
            assert(prev == ps);
            assert(nbrs[k - 1] == j);
        } else if exists|t: int| 0 <= t < k - 1 && nbrs[t] == j {
            let t = choose|t: int| 0 <= t < k - 1 && nbrs[t] == j;
            assert(0 <= t < k && nbrs[t] == j);
            if m > i {
                assert(after[i as int].minus(after[m as int]).norm_sq() >= diameter * diameter);
                assert(resolve_pair(after, i as int, m as int, diameter) =~= after);
            }
        } else {
            assert(forall|t: int| 0 <= t < k ==> nbrs[t] != j);
            if m > i {
                assert(ps[i as int].minus(ps[m as int]).norm_sq() >= diameter * diameter);
                assert(resolve_pair(ps, i as int, m as int, diameter) =~= ps);
            }
        }
    }
}

proof fn lemma_rows_pair(
    ps: Seq<Point>,
    cells: Seq<Cell>,
    i: usize,
    j: usize,
    n: nat,
    diameter: int,
)
    requires
        cells.len() == ps.len(),
        ps.len() <= usize::MAX,
        i < j < ps.len(),
        n <= ps.len(),
        neighbors_spec(cells, i).contains(j),
        apart_but(ps, i as int, j as int, diameter),
        apart_but(resolve_pair(ps, i as int, j as int, diameter), i as int, j as int, diameter),
    ensures
        resolve_rows(ps, cells, n, diameter) == if n <= i {
            ps
        } else {
            resolve_pair(ps, i as int, j as int, diameter)
        },
    decreases n,
{
    let after = resolve_pair(ps, i as int, j as int, diameter);
    if n > 0 {
        lemma_rows_pair(ps, cells, i, j, (n - 1) as nat, diameter);
        let r = (n - 1) as usize;
        let nbrs = neighbors_spec(cells, r);
        lemma_candidates(cells, r);
        lemma_neighbors(cells, r);
        if r < i {
            lemma_row_idle(ps, r, nbrs, nbrs.len(), diameter, i as int, j as int);
        } else if r == i {
            lemma_row_pair(ps, i, j, nbrs, nbrs.len(), diameter);
            let t = choose|t: int| 0 <= t < nbrs.len() && nbrs[t] == j;
            assert(0 <= t < nbrs.len() && nbrs[t] == j);
        } else {
            lemma_row_idle(after, r, nbrs, nbrs.len(), diameter, i as int, j as int);
        }
    }
}

/// One overlapping pair among any number of particles: where every other
/// pair is at least one diameter apart, before the pair has moved and
/// after, the pass resolves that pair, wherever the two lie on the grid,
/// and moves no other particle.
pub proof fn lemma_collide_one_pair(ps: Seq<Point>, i: usize, j: usize, diameter: int)
    requires
        ps.len() <= usize::MAX,
        i < j < ps.len(),
        diameter > 0,
        ps[i as int].minus(ps[j as int]).norm_sq() < diameter * diameter,
        apart_but(ps, i as int, j as int, diameter),
        apart_but(resolve_pair(ps, i as int, j as int, diameter), i as int, j as int, diameter),
    ensures
        collide_spec(ps, diameter) == resolve_pair(ps, i as int, j as int, diameter),
        forall|m: int|
            0 <= m < ps.len() && m != i && m != j ==> #[trigger] collide_spec(ps, diameter)[m]
                == ps[m],
{
    crate::grid::lemma_neighbors_complete(ps, diameter, i, j);
    lemma_rows_pair(ps, cells_of(ps, diameter), i, j, ps.len(), diameter);
}

/// A particle two diameters or more away from another is still a
/// diameter away after it has moved by no more than half a diameter in
/// either coordinate.
proof fn lemma_moved_apart(p: Point, q: Point, c: Point, diameter: int)
    requires
        diameter > 0,
        p.minus(q).norm_sq() >= (2 * diameter) * (2 * diameter),
        2 * abs(c.x) <= diameter,
        2 * abs(c.y) <= diameter,
    ensures
        p.plus(c).minus(q).norm_sq() >= diameter * diameter,
        q.minus(p.plus(c)).norm_sq() >= diameter * diameter,
{
    let d = p.minus(q);
    let m = p.plus(c).minus(q);
    let a = 2 * abs(d.x);
    let b = 2 * abs(d.y);
    let pp = 2 * abs(m.x);
    let qq = 2 * abs(m.y);
    let r = 4 * diameter;
    assert(a * a + b * b == 4 * (d.x * d.x + d.y * d.y)) by (nonlinear_arith)
        requires
            a == 2 * abs(d.x),
            b == 2 * abs(d.y),
    ;
    assert(r * r == 4 * ((2 * diameter) * (2 * diameter))) by (nonlinear_arith)
        requires
            r == 4 * diameter,
    ;
    lemma_shortened(a, b, pp, qq, r, diameter);
    assert(pp * pp + qq * qq == 4 * (m.x * m.x + m.y * m.y)) by (nonlinear_arith)
        requires
            pp == 2 * abs(m.x),
            qq == 2 * abs(m.y),
    ;
    assert((2 * r - 3 * diameter) * (2 * r - 3 * diameter) == 25 * (diameter * diameter))
        by (nonlinear_arith)
        requires
            r == 4 * diameter,
    ;
    assert(diameter * diameter >= 0) by (nonlinear_arith);
    let back = q.minus(p.plus(c));
    assert(back.norm_sq() == m.norm_sq()) by (nonlinear_arith)
        requires
            back.x == -m.x,
            back.y == -m.y,
            back.norm_sq() == back.x * back.x + back.y * back.y,
            m.norm_sq() == m.x * m.x + m.y * m.y,
    ;
}

/// One overlapping pair among particles that are otherwise two diameters
/// or more apart: the pass resolves that pair and moves no other particle,
/// as a scan of all pairs would. The two end one diameter apart, give or
/// take three units below and one part in `ROOT_SCALE` above, about the
/// midpoint that they had.
pub proof fn lemma_collide_lone_pair(ps: Seq<Point>, i: usize, j: usize, diameter: int)
    requires
        ps.len() <= usize::MAX,
        i < j < ps.len(),
        diameter > 0,
        ps[i as int].minus(ps[j as int]).norm_sq() < diameter * diameter,
        apart_but(ps, i as int, j as int, 2 * diameter),
    ensures
        collide_spec(ps, diameter) == resolve_pair(ps, i as int, j as int, diameter),
        forall|m: int|
            0 <= m < ps.len() && m != i && m != j ==> #[trigger] collide_spec(ps, diameter)[m]
                == ps[m],
        collide_spec(ps, diameter)[i as int].plus(collide_spec(ps, diameter)[j as int])
            == ps[i as int].plus(ps[j as int]),
        diameter >= 3 ==> ({
            let after = collide_spec(ps, diameter);
            let n = after[i as int].minus(after[j as int]).norm_sq();
            &&& (diameter - 3) * (diameter - 3) <= n
            &&& n * (ROOT_SCALE as int * ROOT_SCALE as int) <= (diameter * diameter) * ((
            ROOT_SCALE + 1) * (ROOT_SCALE + 1))
        }),
{
    if diameter >= 3 {
        lemma_push_separates(ps[i as int].minus(ps[j as int]), diameter);
    }
    assert(resolve_pair(ps, i as int, j as int, diameter)[i as int].minus(
        resolve_pair(ps, i as int, j as int, diameter)[j as int],
    ) == parted(ps[i as int].minus(ps[j as int]), diameter));
    let after = resolve_pair(ps, i as int, j as int, diameter);
    let c = push_spec(ps[i as int].minus(ps[j as int]), diameter);
    let back = Point { x: -c.x, y: -c.y };
    lemma_push_small(ps[i as int].minus(ps[j as int]), diameter);
    assert((2 * diameter) * (2 * diameter) >= diameter * diameter) by (nonlinear_arith);
    assert(ps[j as int].plus(back) == ps[j as int].minus(c));
    assert forall|a: int, b: int|
        0 <= a < ps.len() && 0 <= b < ps.len() && a != b && !(a == i && b == j) && !(a == j && b
            == i) implies (#[trigger] ps[a].minus(#[trigger] ps[b])).norm_sq() >= diameter
        * diameter by {
        assert(ps[a].minus(ps[b]).norm_sq() >= (2 * diameter) * (2 * diameter));
    }
    assert forall|a: int, b: int|
        0 <= a < after.len() && 0 <= b < after.len() && a != b && !(a == i && b == j) && !(a == j
            && b == i) implies (#[trigger] after[a].minus(#[trigger] after[b])).norm_sq()
        >= diameter * diameter by {
        assert(ps[a].minus(ps[b]).norm_sq() >= (2 * diameter) * (2 * diameter));
        assert(ps[b].minus(ps[a]).norm_sq() >= (2 * diameter) * (2 * diameter));
        if a == i {
            lemma_moved_apart(ps[a], ps[b], c, diameter);
        } else if a == j {
            lemma_moved_apart(ps[a], ps[b], back, diameter);
        } else if b == i {
            lemma_moved_apart(ps[b], ps[a], c, diameter);
        } else if b == j {
            lemma_moved_apart(ps[b], ps[a], back, diameter);
        }
    }
    lemma_collide_one_pair(ps, i, j, diameter);
}

/// A sequence without repetition whose only possible entry is `j`, and
/// which holds `j`, is the sequence of `j` alone.
proof fn lemma_only_entry(s: Seq<usize>, j: usize)
    requires
        s.no_duplicates(),
        s.contains(j),
        forall|t: int| 0 <= t < s.len() ==> s[t] == j,
    ensures
        s == seq![j],
{
    if s.len() >= 2 {
        assert(s[0] == s[1]);
    }
    assert(s =~= seq![j]);
}

/// Two overlapping particles, alone: the pass resolves the pair once. The
/// first particle moves by the displacement of the pair and the second by
/// its reverse, so the midpoint of the two stays where it was.
pub proof fn lemma_collide_pair(a: Point, b: Point, diameter: int)
    requires
        diameter > 0,
        a.minus(b).norm_sq() < diameter * diameter,
    ensures
        collide_spec(seq![a, b], diameter) == seq![
            a.plus(push_spec(a.minus(b), diameter)),
            b.minus(push_spec(a.minus(b), diameter)),
        ],
        collide_spec(seq![a, b], diameter)[0].plus(collide_spec(seq![a, b], diameter)[1])
            == a.plus(b),
        collide_spec(seq![a, b], diameter)[0].minus(collide_spec(seq![a, b], diameter)[1])
            == parted(a.minus(b), diameter),
{
    let ps = seq![a, b];
    let cells = cells_of(ps, diameter);
    let d = a.minus(b);
    assert(-diameter <= d.x <= diameter && -diameter <= d.y <= diameter) by (nonlinear_arith)
        requires
            d.x * d.x + d.y * d.y < diameter * diameter,
            diameter > 0,
    ;
    crate::grid::lemma_cell_coord_near(a.x, b.x, diameter);
    crate::grid::lemma_cell_coord_near(a.y, b.y, diameter);
    crate::grid::lemma_cell_coord_near(b.x, a.x, diameter);
    crate::grid::lemma_cell_coord_near(b.y, a.y, diameter);
    assert(cells[0] == crate::grid::cell_of(a, diameter));
    assert(cells[1] == crate::grid::cell_of(b, diameter));
    let n0 = neighbors_spec(cells, 0);
    let n1 = neighbors_spec(cells, 1);
    lemma_neighbors(cells, 0);
    lemma_neighbors(cells, 1);
    lemma_candidates(cells, 0);
    lemma_candidates(cells, 1);
    assert(n0.contains(1usize));
    assert(n1.contains(0usize));
    lemma_only_entry(n0, 1);
    lemma_only_entry(n1, 0);
    let r0 = resolve_rows(ps, cells, 0, diameter);
    assert(r0 == ps);
    let r1 = resolve_rows(ps, cells, 1, diameter);
    assert(r1 == resolve_row(r0, 0, n0, 1, diameter));
    assert(resolve_row(ps, 0, n0, 0, diameter) == ps);
    assert(r1 == resolve_pair(ps, 0, 1, diameter));
    let r2 = resolve_rows(ps, cells, 2, diameter);
    assert(r2 == resolve_row(r1, 1, n1, 1, diameter));
    assert(resolve_row(r1, 1, n1, 0, diameter) == r1);
    assert(r2 == r1);
    let c = push_spec(d, diameter);
    assert(r1 =~= seq![a.plus(c), b.minus(c)]);
}

/// Two overlapping particles, alone, are one diameter apart after the
/// pass, give or take three units below and one part in `ROOT_SCALE`
/// above.
pub proof fn lemma_pair_separated(a: Point, b: Point, diameter: int)
    requires
        3 <= diameter,
        a.minus(b).norm_sq() < diameter * diameter,
    ensures
        ({
            let after = collide_spec(seq![a, b], diameter);
            let n = after[0].minus(after[1]).norm_sq();
            &&& (diameter - 3) * (diameter - 3) <= n
            &&& n * (ROOT_SCALE as int * ROOT_SCALE as int) <= (diameter * diameter) * ((
            ROOT_SCALE + 1) * (ROOT_SCALE + 1))
        }),
{
    lemma_collide_pair(a, b, diameter);
    lemma_push_separates(a.minus(b), diameter);
}

/// Resolves the pairs that the index proposes, in place: each particle
/// meets its neighbour candidates, in rising order of the particles, and a
/// pair that overlaps at the positions reached so far is pushed apart, once,
/// by opposite displacements. The index is a snapshot: it is not updated
/// while the particles move.
pub fn resolve(positions: &mut Vec<Vec2>, index: &SpatialIndex, diameter: i64)
    requires
        index@.len() == old(positions)@.len(),
        old(positions)@.len() <= MAX_PARTICLES,
        0 < diameter <= MAX_DIAMETER,
        all_within(model(old(positions)@), crate::vector::COORD_MAX as int),
    ensures
        final(positions)@.len() == old(positions)@.len(),
        model(final(positions)@) == resolve_rows(
            model(old(positions)@),
            index@,
            old(positions)@.len(),
            diameter as int,
        ),
{
    let n = positions.len();
    let ghost start = model(positions@);
    let ghost cells = index@;
    let ghost bound = crate::vector::COORD_MAX as int;
    let mut i: usize = 0;
    while i < n
        invariant
            i <= n,
            n == positions@.len(),
            n <= MAX_PARTICLES,
            n == start.len(),
            0 < diameter <= MAX_DIAMETER,
            cells == index@,
            cells.len() == n,
            all_within(start, bound),
            bound == crate::vector::COORD_MAX,
            model(positions@) == resolve_rows(start, cells, i as nat, diameter as int),
        decreases n - i,
    {
        let nbrs = index.neighbors(i);
        let ghost row_start = model(positions@);
        let ghost b1 = bound + 10 * (n * diameter);
        proof {
            lemma_candidates(cells, i);
            lemma_resolve_rows_within(start, cells, i as nat, diameter as int, bound);
            assert(0 <= n * diameter <= 0x80_0000_0000_0000) by (nonlinear_arith)
                requires
                    0 <= n <= 0x10_0000,
                    0 < diameter <= 0x8_0000_0000,
            ;
        }
        let m = nbrs.len();
        let mut t: usize = 0;
        while t < m
            invariant
                t <= m,
                m == nbrs@.len(),
                m <= 9 * n,
                i < n,
                n == positions@.len(),
                n == row_start.len(),
                n <= MAX_PARTICLES,
                0 < diameter <= MAX_DIAMETER,
                forall|u: int| 0 <= u < nbrs@.len() ==> #[trigger] nbrs@[u] < n,
                all_within(row_start, b1),
                0 <= b1 <= 0x1000_0000_0000_0000 + 10 * 0x80_0000_0000_0000,
                model(positions@) == resolve_row(row_start, i, nbrs@, t as nat, diameter as int),
            decreases m - t,
        {
            let j = nbrs[t];
            proof {
                lemma_resolve_row_within(row_start, i, nbrs@, t as nat, diameter as int, b1);
                assert(t * diameter <= 9 * 0x80_0000_0000_0000) by (nonlinear_arith)
                    requires
                        0 <= t <= 9 * n,
                        0 <= n <= 0x10_0000,
                        0 < diameter <= 0x8_0000_0000,
                ;
            }
            if j > i {
                let ghost cur = model(positions@);
                let pi = positions[i];
                let pj = positions[j];
                assert(cur[i as int] == pi@ && cur[j as int] == pj@);
                assert(cur[i as int].within(b1 + t * diameter));
                assert(cur[j as int].within(b1 + t * diameter));
                let d = Vec2 { x: pi.x - pj.x, y: pi.y - pj.y };
                let c = push(d, diameter);
                positions.set(i, Vec2 { x: pi.x + c.x, y: pi.y + c.y });
                positions.set(j, Vec2 { x: pj.x - c.x, y: pj.y - c.y });
                assert(model(positions@) =~= resolve_pair(cur, i as int, j as int, diameter as int));
            }
            t += 1;
        }
        i += 1;
    }
}

/// One collision pass over the particles, in place: a grid with cells as
/// wide as a particle is laid over the positions as they are on entry, and
/// the pairs that it proposes are resolved.
pub fn collide(positions: &mut Vec<Vec2>, diameter: i64)
    requires
        old(positions)@.len() <= MAX_PARTICLES,
        0 < diameter <= MAX_DIAMETER,
        all_within(model(old(positions)@), crate::vector::COORD_MAX as int),
    ensures
        final(positions)@.len() == old(positions)@.len(),
        model(final(positions)@) == collide_spec(model(old(positions)@), diameter as int),
{
    let index = SpatialIndex::build(positions, diameter);
    resolve(positions, &index, diameter);
}

} // verus!
