//! The spatial index: a uniform grid of square cells that answers, for a
//! particle, which other particles lie in its own cell or in one of the
//! eight cells around it.

use std::collections::HashMap;
use vstd::prelude::*;
use crate::vector::{model, Point, Vec2};

verus! {

broadcast use vstd::std_specs::hash::group_hash_axioms;

/// A grid cell, by its column and row.
pub type Cell = (int, int);

/// The column (or row) of the cell that holds the coordinate `x` in a grid
/// of cells of side `size`: the quotient rounded down, so that negative
/// coordinates continue the grid to the left of zero.
pub open spec fn cell_coord(x: int, size: int) -> int {
    x / size
}

/// The cell that holds the point `p`.
pub open spec fn cell_of(p: Point, size: int) -> Cell {
    (cell_coord(p.x, size), cell_coord(p.y, size))
}

/// The cell of each point, index by index.
pub open spec fn cells_of(points: Seq<Point>, size: int) -> Seq<Cell> {
    Seq::new(points.len(), |i: int| cell_of(points[i], size))
}

/// The indices below `n` of the particles in cell `c`, in rising order.
pub open spec fn bucket(cells: Seq<Cell>, c: Cell, n: nat) -> Seq<usize>
    decreases n,
{
    if n == 0 {
        Seq::empty()
    } else {
        let rest = bucket(cells, c, (n - 1) as nat);
        if cells[n - 1] == c {
            rest.push((n - 1) as usize)
        } else {
            rest
        }
    }
}

/// The sequence `s` without the entries that equal `i`.
pub open spec fn others(s: Seq<usize>, i: usize) -> Seq<usize>
    decreases s.len(),
{
    if s.len() == 0 {
        Seq::empty()
    } else {
        let rest = others(s.drop_last(), i);
        if s.last() == i {
            rest
        } else {
            rest.push(s.last())
        }
    }
}

/// The `k`-th cell of the block of three by three cells around `c`, counted
/// column by column from the lower left.
pub open spec fn shifted(c: Cell, k: int) -> Cell {
    (c.0 + k / 3 - 1, c.1 + k % 3 - 1)
}

/// Two cells are the same or touch, diagonals included.
pub open spec fn adjacent(a: Cell, b: Cell) -> bool {
    -1 <= a.0 - b.0 <= 1 && -1 <= a.1 - b.1 <= 1
}

/// The candidates that the first `k` cells of the block around particle
/// `i` contribute.
pub open spec fn neighbors_upto(cells: Seq<Cell>, i: usize, k: nat) -> Seq<usize>
    decreases k,
{
    if k == 0 {
        Seq::empty()
    } else {
        neighbors_upto(cells, i, (k - 1) as nat) + others(
            bucket(cells, shifted(cells[i as int], k - 1), cells.len()),
            i,
        )
    }
}

/// The neighbour candidates of particle `i`: every other particle of its
/// cell and of the eight cells around it, cell by cell, in rising order
/// within a cell.
pub open spec fn neighbors_spec(cells: Seq<Cell>, i: usize) -> Seq<usize> {
    neighbors_upto(cells, i, 9)
}

/// The number that stands for a cell in the table of buckets.
spec fn key_spec(cx: int, cy: int) -> int {
    (cx + 0x8000_0000_0000_0000) * 0x1_0000_0000_0000_0000 + (cy + 0x8000_0000_0000_0000)
}

/// `a` is the value of an `i64`.
spec fn fits_i64(a: int) -> bool {
    -0x8000_0000_0000_0000 <= a <= 0x7fff_ffff_ffff_ffff
}

/// Rounded-down quotient of a coordinate by the cell size.
pub fn floor_div(x: i64, size: i64) -> (q: i64)
    requires
        size > 0,
    ensures
        q == cell_coord(x as int, size as int),
{
    let wide: i128 = x as i128;
    let s: i128 = size as i128;
    if wide >= 0 {
        let q: i128 = wide / s;
        assert(0 <= q <= wide) by (nonlinear_arith)
            requires
                q == (wide as int) / (s as int),
                wide >= 0,
                s > 0,
        ;
        q as i64
    } else {
        let m: i128 = -wide - 1;
        let t: i128 = m / s;
        assert(0 <= t <= m) by (nonlinear_arith)
            requires
                t == (m as int) / (s as int),
                m >= 0,
                s > 0,
        ;
        let q: i128 = -t - 1;
        assert(q == (wide as int) / (s as int)) by (nonlinear_arith)
            requires
                t == (m as int) / (s as int),
                m == -wide - 1,
                q == -t - 1,
                s > 0,
                m >= 0,
        ;
        q as i64
    }
}

/// The key of the cell `(cx, cy)`.
fn cell_key(cx: i64, cy: i64) -> (k: u128)
    ensures
        k == key_spec(cx as int, cy as int),
{
    let a: u128 = ((cx as i128) + 0x8000_0000_0000_0000) as u128;
    let b: u128 = ((cy as i128) + 0x8000_0000_0000_0000) as u128;
    a * 0x1_0000_0000_0000_0000 + b
}

/// Distinct cells have distinct keys.
proof fn lemma_key_injective(ax: int, ay: int, bx: int, by: int)
    requires
        fits_i64(ax),
        fits_i64(ay),
        fits_i64(bx),
        fits_i64(by),
        key_spec(ax, ay) == key_spec(bx, by),
    ensures
        ax == bx,
        ay == by,
{
}

/// A concatenation contains what either part contains.
pub proof fn lemma_concat_contains(a: Seq<usize>, b: Seq<usize>, j: usize)
    ensures
        (a + b).contains(j) <==> a.contains(j) || b.contains(j),
{
    if a.contains(j) {
        let t = choose|t: int| 0 <= t < a.len() && a[t] == j;
        assert((a + b)[t] == j);
    }
    if b.contains(j) {
        let t = choose|t: int| 0 <= t < b.len() && b[t] == j;
        assert((a + b)[a.len() + t] == j);
    }
    if (a + b).contains(j) {
        let t = choose|t: int| 0 <= t < (a + b).len() && (a + b)[t] == j;
        if t < a.len() {
            assert(a[t] == j);
        } else {
            assert(b[t - a.len()] == j);
        }
    }
}

/// Two sequences without repetition that share no entry concatenate to a
/// sequence without repetition.
pub proof fn lemma_concat_no_duplicates(a: Seq<usize>, b: Seq<usize>)
    requires
        a.no_duplicates(),
        b.no_duplicates(),
        forall|j: usize| !(a.contains(j) && b.contains(j)),
    ensures
        (a + b).no_duplicates(),
{
    let c = a + b;
    assert forall|s: int, t: int| 0 <= s < c.len() && 0 <= t < c.len() && s != t implies c[s]
        != c[t] by {
        if s < a.len() && t >= a.len() {
            assert(a.contains(a[s]));
            assert(b.contains(b[t - a.len()]));
        }
        if t < a.len() && s >= a.len() {
            assert(a.contains(a[t]));
            assert(b.contains(b[s - a.len()]));
        }
    }
}

/// The bucket of `c` holds exactly the particles below `n` that lie in
/// `c`, each once, and no more than `n` of them.
pub proof fn lemma_bucket(cells: Seq<Cell>, c: Cell, n: nat)
    requires
        n <= cells.len(),
        n <= usize::MAX,
    ensures
        forall|j: usize|
            #[trigger] bucket(cells, c, n).contains(j) <==> j < n && cells[j as int] == c,
        bucket(cells, c, n).no_duplicates(),
        bucket(cells, c, n).len() <= n,
    decreases n,
{
    if n == 0 {
    } else {
        let rest = bucket(cells, c, (n - 1) as nat);
        let last = (n - 1) as usize;
        lemma_bucket(cells, c, (n - 1) as nat);
        if cells[n - 1] == c {
            let all = rest.push(last);
            assert(all =~= rest + seq![last]);
            assert(seq![last].contains(last)) by {
                assert(seq![last][0] == last);
            }
            assert forall|j: usize| #[trigger]
                all.contains(j) <==> j < n && cells[j as int] == c by {
                lemma_concat_contains(rest, seq![last], j);
                if seq![last].contains(j) {
                    let t = choose|t: int| 0 <= t < 1 && seq![last][t] == j;
                    assert(j == last);
                }
            }
            assert forall|j: usize| !(rest.contains(j) && seq![last].contains(j)) by {
                if seq![last].contains(j) {
                    let t = choose|t: int| 0 <= t < 1 && seq![last][t] == j;
                    assert(j == last);
                }
            }
            lemma_concat_no_duplicates(rest, seq![last]);
        }
    }
}

/// Leaving out `i` keeps every other entry, adds none and repeats none.
pub proof fn lemma_others(s: Seq<usize>, i: usize)
    ensures
        forall|j: usize| #[trigger] others(s, i).contains(j) <==> s.contains(j) && j != i,
        s.no_duplicates() ==> others(s, i).no_duplicates(),
        others(s, i).len() <= s.len(),
    decreases s.len(),
{
    if s.len() == 0 {
    } else {
        let front = s.drop_last();
        let last = s.last();
        let rest = others(front, i);
        lemma_others(front, i);
        assert(s =~= front + seq![last]);
        assert(seq![last].contains(last)) by {
            assert(seq![last][0] == last);
        }
        assert forall|j: usize| seq![last].contains(j) implies j == last by {
            let t = choose|t: int| 0 <= t < 1 && seq![last][t] == j;
        }
        assert forall|j: usize| #[trigger]
            others(s, i).contains(j) <==> s.contains(j) && j != i by {
            lemma_concat_contains(front, seq![last], j);
            if last != i {
                assert(others(s, i) =~= rest + seq![last]);
                lemma_concat_contains(rest, seq![last], j);
            }
        }
        if s.no_duplicates() {
            assert(front.no_duplicates());
            if last != i {
                assert(others(s, i) =~= rest + seq![last]);
                assert forall|j: usize| !(rest.contains(j) && seq![last].contains(j)) by {
                    if rest.contains(j) && seq![last].contains(j) {
                        let t = choose|t: int| 0 <= t < front.len() && front[t] == j;
                        assert(s[t] == s[s.len() - 1]);
                    }
                }
                lemma_concat_no_duplicates(rest, seq![last]);
            }
        }
    }
}

/// The nine cells of a block are distinct, and they are the cells that are
/// adjacent to its centre.
pub proof fn lemma_shifted(c: Cell, d: Cell)
    ensures
        adjacent(c, d) <==> exists|k: int| 0 <= k < 9 && #[trigger] shifted(c, k) == d,
        forall|k: int, m: int|
            0 <= k < 9 && 0 <= m < 9 && #[trigger] shifted(c, k) == #[trigger] shifted(c, m) ==> k
                == m,
{
    if adjacent(c, d) {
        let k = (d.0 - c.0 + 1) * 3 + (d.1 - c.1 + 1);
        assert(shifted(c, k) == d);
    }
}

/// What the first `k` cells of the block around particle `i` contribute:
/// exactly the other particles found in those cells, each once.
pub proof fn lemma_neighbors_upto(cells: Seq<Cell>, i: usize, k: nat)
    requires
        i < cells.len(),
        cells.len() <= usize::MAX,
        k <= 9,
    ensures
        forall|j: usize| #[trigger]
            neighbors_upto(cells, i, k).contains(j) <==> j < cells.len() && j != i && exists|
                m: int,
            | 0 <= m < k && #[trigger] shifted(cells[i as int], m) == cells[j as int],
        neighbors_upto(cells, i, k).no_duplicates(),
        neighbors_upto(cells, i, k).len() <= k * cells.len(),
    decreases k,
{
    let ci = cells[i as int];
    if k == 0 {
    } else {
        let before = neighbors_upto(cells, i, (k - 1) as nat);
        let cell = shifted(ci, k - 1);
        let full = bucket(cells, cell, cells.len());
        let part = others(full, i);
        lemma_neighbors_upto(cells, i, (k - 1) as nat);
        lemma_bucket(cells, cell, cells.len());
        lemma_others(full, i);
        lemma_shifted(ci, cell);
        assert forall|j: usize| #[trigger]
            (before + part).contains(j) <==> j < cells.len() && j != i && exists|m: int|
                0 <= m < k && #[trigger] shifted(ci, m) == cells[j as int] by {
            lemma_concat_contains(before, part, j);
            if part.contains(j) {
                assert(shifted(ci, k - 1) == cells[j as int]);
            }
            if j < cells.len() && j != i && exists|m: int|
                0 <= m < k && #[trigger] shifted(ci, m) == cells[j as int] {
                let m = choose|m: int| 0 <= m < k && #[trigger] shifted(ci, m) == cells[j as int];
                if m == k - 1 {
                    assert(full.contains(j));
                } else {
                    assert(0 <= m < k - 1 && shifted(ci, m) == cells[j as int]);
                }
            }
        }
        assert forall|j: usize| !(before.contains(j) && part.contains(j)) by {
            if before.contains(j) && part.contains(j) {
                let m = choose|m: int|
                    0 <= m < k - 1 && #[trigger] shifted(ci, m) == cells[j as int];
                assert(shifted(ci, m) == shifted(ci, k - 1));
            }
        }
        lemma_concat_no_duplicates(before, part);
        assert(k * cells.len() == (k - 1) * cells.len() + cells.len()) by (nonlinear_arith);
    }
}

/// The neighbour candidates of particle `i` are exactly the other particles
/// whose cell is the cell of `i` or touches it; none is listed twice.
pub proof fn lemma_neighbors(cells: Seq<Cell>, i: usize)
    requires
        i < cells.len(),
        cells.len() <= usize::MAX,
    ensures
        forall|j: usize| #[trigger]
            neighbors_spec(cells, i).contains(j) <==> j < cells.len() && j != i && adjacent(
                cells[i as int],
                cells[j as int],
            ),
        neighbors_spec(cells, i).no_duplicates(),
        neighbors_spec(cells, i).len() <= 9 * cells.len(),
{
    lemma_neighbors_upto(cells, i, 9);
    assert forall|j: usize| #[trigger]
        neighbors_spec(cells, i).contains(j) <==> j < cells.len() && j != i && adjacent(
            cells[i as int],
            cells[j as int],
        ) by {
        if j < cells.len() {
            lemma_shifted(cells[i as int], cells[j as int]);
        }
    }
}

/// Coordinates that differ by at most one cell side fall into the same
/// column or into columns next to each other.
pub proof fn lemma_cell_coord_near(a: int, b: int, size: int)
    requires
        size > 0,
        -size <= a - b <= size,
    ensures
        -1 <= cell_coord(a, size) - cell_coord(b, size) <= 1,
{
    let qa = a / size;
    let qb = b / size;
    assert(-1 <= qa - qb <= 1) by (nonlinear_arith)
        requires
            size > 0,
            -size <= a - b <= size,
            qa == a / size,
            qb == b / size,
    ;
}

/// The index misses no close pair: a particle `j` whose distance from
/// particle `i` is at most the cell side is among the neighbour candidates
/// of `i`.
pub proof fn lemma_neighbors_complete(points: Seq<Point>, size: int, i: usize, j: usize)
    requires
        size > 0,
        points.len() <= usize::MAX,
        i < points.len(),
        j < points.len(),
        i != j,
        points[i as int].minus(points[j as int]).norm_sq() <= size * size,
    ensures
        neighbors_spec(cells_of(points, size), i).contains(j),
{
    let d = points[i as int].minus(points[j as int]);
    assert(-size <= d.x <= size && -size <= d.y <= size) by (nonlinear_arith)
        requires
            d.x * d.x + d.y * d.y <= size * size,
            size > 0,
    ;
    lemma_cell_coord_near(points[i as int].x, points[j as int].x, size);
    lemma_cell_coord_near(points[i as int].y, points[j as int].y, size);
    lemma_neighbors(cells_of(points, size), i);
}

/// What the table holds for the key `k`: the bucket stored under it, or
/// nothing.
spec fn stored(m: Map<u128, Vec<usize>>, k: int) -> Seq<usize> {
    if 0 <= k <= u128::MAX && m.contains_key(k as u128) {
        m[k as u128]@
    } else {
        Seq::empty()
    }
}

spec fn widen(cells: Seq<(i64, i64)>) -> Seq<Cell> {
    Seq::new(cells.len(), |j: int| (cells[j].0 as int, cells[j].1 as int))
}

/// The table holds, for every cell, the particles below `n` that lie in it.
spec fn table_ok(m: Map<u128, Vec<usize>>, cells: Seq<Cell>, n: nat) -> bool {
    forall|cx: int, cy: int|
        fits_i64(cx) && fits_i64(cy) ==> stored(m, #[trigger] key_spec(cx, cy)) == bucket(
            cells,
            (cx, cy),
            n,
        )
}

/// No particle below `n` lies in `c`, so the bucket of `c` is empty.
proof fn lemma_bucket_vacant(cells: Seq<Cell>, c: Cell, n: nat)
    requires
        n <= cells.len(),
        forall|j: int| 0 <= j < n ==> cells[j] != c,
    ensures
        bucket(cells, c, n) == Seq::<usize>::empty(),
    decreases n,
{
    if n > 0 {
        lemma_bucket_vacant(cells, c, (n - 1) as nat);
    }
}

/// A snapshot of the particles' cells, with the particles of each cell
/// gathered in a bucket. Its view is the cell of each particle.
pub struct SpatialIndex {
    cells: Vec<(i64, i64)>,
    buckets: HashMap<u128, Vec<usize>>,
}

impl View for SpatialIndex {
    type V = Seq<Cell>;

    closed spec fn view(&self) -> Seq<Cell> {
        widen(self.cells@)
    }
}

impl SpatialIndex {
    #[verifier::type_invariant]
    spec fn inv(&self) -> bool {
        table_ok(self.buckets@, widen(self.cells@), self.cells@.len())
    }

    /// Buckets every particle into the cell of side `cell_size` that holds
    /// its position.
    pub fn build(positions: &Vec<Vec2>, cell_size: i64) -> (idx: SpatialIndex)
        requires
            cell_size > 0,
        ensures
            idx@ == cells_of(model(positions@), cell_size as int),
    {
        let n = positions.len();
        let mut cells: Vec<(i64, i64)> = Vec::new();
        let mut i: usize = 0;
        while i < n
            invariant
                n == positions.len(),
                cell_size > 0,
                i <= n,
                cells@.len() == i,
                forall|j: int|
                    0 <= j < i ==> (#[trigger] cells@[j].0 as int, cells@[j].1 as int) == cell_of(
                        positions@[j]@,
                        cell_size as int,
                    ),
            decreases n - i,
        {
            let p = positions[i];
            cells.push((floor_div(p.x, cell_size), floor_div(p.y, cell_size)));
            i += 1;
        }
        assert(widen(cells@) =~= cells_of(model(positions@), cell_size as int));
        let ghost wide = widen(cells@);
        let mut buckets: HashMap<u128, Vec<usize>> = HashMap::new();
        assert(table_ok(buckets@, wide, 0));
        let mut i: usize = 0;
        while i < n
            invariant
                n == cells@.len(),
                wide == widen(cells@),
                i <= n,
                table_ok(buckets@, wide, i as nat),
            decreases n - i,
        {
            let c = cells[i];
            let k = cell_key(c.0, c.1);
            let ghost before = buckets@;
            let mut b: Vec<usize> = match buckets.remove(&k) {
                Some(b) => b,
                None => Vec::new(),
            };
            assert(b@ == stored(before, k as int));
            b.push(i);
            let ghost grown = b@;
            buckets.insert(k, b);
            assert(buckets@ == before.remove(k).insert(k, buckets@[k]));
            assert(buckets@[k]@ == grown);
            assert forall|cx: int, cy: int| fits_i64(cx) && fits_i64(cy) implies stored(
                buckets@,
                #[trigger] key_spec(cx, cy),
            ) == bucket(wide, (cx, cy), (i + 1) as nat) by {
                assert(stored(before, key_spec(cx, cy)) == bucket(wide, (cx, cy), i as nat));
                if key_spec(cx, cy) == k as int {
                    lemma_key_injective(cx, cy, c.0 as int, c.1 as int);
                    assert(wide[i as int] == (cx, cy));
                } else {
                    if wide[i as int] == (cx, cy) {
                        assert(false);
                    }
                }
            }
            i += 1;
        }
        SpatialIndex { cells, buckets }
    }

    /// The neighbour candidates of particle `i`: every other particle in
    /// its cell or in one of the eight cells around it.
    pub fn neighbors(&self, i: usize) -> (r: Vec<usize>)
        requires
            i < self@.len(),
        ensures
            r@ == neighbors_spec(self@, i),
    {
        proof {
            use_type_invariant(self);
        }
        let c = self.cells[i];
        let ghost wide = widen(self.cells@);
        let mut out: Vec<usize> = Vec::new();
        let mut k: i64 = 0;
        while k < 9
            invariant
                0 <= k <= 9,
                wide == widen(self.cells@),
                i < wide.len(),
                wide[i as int] == (c.0 as int, c.1 as int),
                table_ok(self.buckets@, wide, wide.len()),
                out@ == neighbors_upto(wide, i, k as nat),
            decreases 9 - k,
        {
            let nx: i128 = (c.0 as i128) + ((k / 3) as i128) - 1;
            let ny: i128 = (c.1 as i128) + ((k % 3) as i128) - 1;
            let ghost cell: Cell = (nx as int, ny as int);
            assert(cell == shifted(wide[i as int], k as int));
            let ghost base = out@;
            let ghost full = bucket(wide, cell, wide.len());
            if nx >= -0x8000_0000_0000_0000 && nx <= 0x7fff_ffff_ffff_ffff && ny
                >= -0x8000_0000_0000_0000 && ny <= 0x7fff_ffff_ffff_ffff {
                let key = cell_key(nx as i64, ny as i64);
                assert(stored(self.buckets@, key_spec(nx as int, ny as int)) == full);
                match self.buckets.get(&key) {
                    Some(b) => {
                        assert(b@ == full);
                        let m = b.len();
                        let mut t: usize = 0;
                        assert(b@.subrange(0, 0) =~= Seq::<usize>::empty());
                        while t < m
                            invariant
                                t <= m,
                                m == b@.len(),
                                out@ == base + others(b@.subrange(0, t as int), i),
                            decreases m - t,
                        {
                            let j = b[t];
                            assert(b@.subrange(0, t + 1).drop_last() =~= b@.subrange(0, t as int));
                            if j != i {
                                out.push(j);
                            }
                            t += 1;
                        }
                        assert(b@.subrange(0, m as int) =~= b@);
                    },
                    None => {
                        assert(full =~= Seq::<usize>::empty());
                        assert(out@ =~= base + others(full, i));
                    },
                }
            } else {
                proof {
                    lemma_bucket_vacant(wide, cell, wide.len());
                    assert(out@ =~= base + others(full, i));
                }
            }
            k += 1;
        }
        out
    }

    /// The number of particles in the snapshot.
    pub fn len(&self) -> (n: usize)
        ensures
            n == self@.len(),
    {
        self.cells.len()
    }
}

} // verus!
