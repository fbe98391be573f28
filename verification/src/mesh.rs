//! Index lists of the circle meshes that show the particles and the
//! container: the vertices of a circle are numbered along its outline.

use vstd::prelude::*;

verus! {

/// The index list of an outline of `n` vertices, drawn as line segments:
/// the segment from each vertex to the next, and from the last back to the
/// first.
pub open spec fn line_circle_spec(n: int) -> Seq<u32> {
    Seq::new(
        (2 * n) as nat,
        |k: int|
            if k % 2 == 0 {
                (k / 2) as u32
            } else {
                ((k / 2 + 1) % n) as u32
            },
    )
}

/// The index list of a disk of `n` vertices, drawn as a fan of triangles
/// around vertex 0.
pub open spec fn filled_circle_spec(n: int) -> Seq<u32> {
    Seq::new(
        if n >= 2 {
            (3 * (n - 2)) as nat
        } else {
            0
        },
        |k: int|
            if k % 3 == 0 {
                (k / 3 + 1) as u32
            } else if k % 3 == 1 {
                0u32
            } else {
                (k / 3 + 2) as u32
            },
    )
}

/// The index list of the outline of a circle of `n` vertices.
pub fn line_circle_indices(n: u32) -> (r: Vec<u32>)
    ensures
        r@ == line_circle_spec(n as int),
{
    let mut out: Vec<u32> = Vec::new();
    let mut i: u32 = 0;
    while i < n
        invariant
            i <= n,
            out@.len() == 2 * i,
            forall|k: int| 0 <= k < 2 * i ==> #[trigger] out@[k] == line_circle_spec(n as int)[k],
        decreases n - i,
    {
        let next: u32 = if i + 1 == n {
            0
        } else {
            i + 1
        };
        proof {
            if i + 1 < n {
                vstd::arithmetic::div_mod::lemma_small_mod((i + 1) as nat, n as nat);
            } else {
                vstd::arithmetic::div_mod::lemma_mod_self_0(n as int);
            }
        }
        out.push(i);
        out.push(next);
        i += 1;
    }
    assert(out@ =~= line_circle_spec(n as int));
    out
}

/// The index list of the triangles that fill a circle of `n` vertices.
pub fn filled_circle_indices(n: u32) -> (r: Vec<u32>)
    requires
        n >= 1,
    ensures
        r@ == filled_circle_spec(n as int),
{
    let mut out: Vec<u32> = Vec::new();
    let mut i: u32 = 1;
    while i < n - 1
        invariant
            1 <= i,
            n >= 1,
            i == 1 || i <= n - 1,
            out@.len() == 3 * (i - 1),
            forall|k: int|
                0 <= k < 3 * (i - 1) ==> #[trigger] out@[k] == filled_circle_spec(n as int)[k],
        decreases n - i,
    {
        out.push(i);
        out.push(0);
        out.push(i + 1);
        i += 1;
    }
    assert(out@ =~= filled_circle_spec(n as int));
    out
}

} // verus!
