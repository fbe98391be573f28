//! Two-dimensional vectors with integer coordinates, and their mathematical
//! model.

use vstd::prelude::*;

verus! {

/// A point or vector of the plane with unbounded integer coordinates: the
/// model that contracts speak of.
pub ghost struct Point {
    pub x: int,
    pub y: int,
}

/// A point or vector of the plane as the kernel stores it, in fixed-point
/// units.
#[derive(Clone, Copy, Debug, PartialEq, Eq, Structural)]
pub struct Vec2 {
    pub x: i64,
    pub y: i64,
}

impl View for Vec2 {
    type V = Point;

    open spec fn view(&self) -> Point {
        Point { x: self.x as int, y: self.y as int }
    }
}

/// The largest magnitude of a coordinate that the kernel accepts where it
/// has to compute with it.
pub const COORD_MAX: i64 = 0x1000_0000_0000_0000;

impl Point {
    /// The origin.
    pub open spec fn zero() -> Point {
        Point { x: 0, y: 0 }
    }

    /// The sum of two vectors.
    pub open spec fn plus(self, o: Point) -> Point {
        Point { x: self.x + o.x, y: self.y + o.y }
    }

    /// The difference of two vectors.
    pub open spec fn minus(self, o: Point) -> Point {
        Point { x: self.x - o.x, y: self.y - o.y }
    }

    /// Squared Euclidean length.
    pub open spec fn norm_sq(self) -> int {
        self.x * self.x + self.y * self.y
    }

    /// Both coordinates lie within `b` of zero.
    pub open spec fn within(self, b: int) -> bool {
        -b <= self.x <= b && -b <= self.y <= b
    }
}

/// The models of a sequence of stored vectors, index by index.
pub open spec fn model(s: Seq<Vec2>) -> Seq<Point> {
    Seq::new(s.len(), |i: int| s[i]@)
}

/// `n` points, all at the origin.
pub open spec fn zeros(n: nat) -> Seq<Point> {
    Seq::new(n, |i: int| Point::zero())
}

/// The sum of the points of `s`.
pub open spec fn total(s: Seq<Point>) -> Point
    decreases s.len(),
{
    if s.len() == 0 {
        Point::zero()
    } else {
        total(s.drop_last()).plus(s.last())
    }
}

/// Replacing one point changes the sum by the difference of the two.
pub proof fn lemma_total_update(s: Seq<Point>, i: int, v: Point)
    requires
        0 <= i < s.len(),
    ensures
        total(s.update(i, v)) == total(s).minus(s[i]).plus(v),
    decreases s.len(),
{
    let t = s.update(i, v);
    if i == s.len() - 1 {
        assert(t.drop_last() =~= s.drop_last());
    } else {
        lemma_total_update(s.drop_last(), i, v);
        assert(t.drop_last() =~= s.drop_last().update(i, v));
    }
}

/// Every point of `s` has both coordinates within `b` of zero.
pub open spec fn all_within(s: Seq<Point>, b: int) -> bool {
    forall|i: int| 0 <= i < s.len() ==> (#[trigger] s[i]).within(b)
}

/// Whether every vector has both coordinates within `bound` of zero.
pub fn all_in_range(points: &Vec<Vec2>, bound: i64) -> (b: bool)
    ensures
        b == all_within(model(points@), bound as int),
{
    let n = points.len();
    if bound < 0 {
        assert(n > 0 ==> !model(points@)[0].within(bound as int));
        return n == 0;
    }
    let mut i: usize = 0;
    while i < n
        invariant
            i <= n,
            n == points@.len(),
            0 <= bound,
            forall|j: int| 0 <= j < i ==> (#[trigger] model(points@)[j]).within(bound as int),
        decreases n - i,
    {
        let p = points[i];
        if p.x < -bound || p.x > bound || p.y < -bound || p.y > bound {
            assert(!model(points@)[i as int].within(bound as int));
            return false;
        }
        i += 1;
    }
    true
}

impl Vec2 {
    /// The vector with the given coordinates.
    pub fn new(x: i64, y: i64) -> (v: Vec2)
        ensures
            v.x == x,
            v.y == y,
    {
        Vec2 { x, y }
    }

    /// The vector of length zero.
    pub fn zero() -> (v: Vec2)
        ensures
            v.x == 0,
            v.y == 0,
    {
        Vec2 { x: 0, y: 0 }
    }
}

} // verus!
