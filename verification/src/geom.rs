//! Integer 3-D geometry: points, squared Euclidean distance, and an exact
//! integer square root. Coordinates are bounded so that every squared
//! distance fits comfortably in an `i64`.

use vstd::prelude::*;

verus! {

/// Largest magnitude a coordinate may have.
pub const COORD_LIMIT: i64 = 1_000_000;

/// Largest number of points one build accepts.
pub const MAX_POINTS: usize = 1_000_000;

/// Upper bound on the squared distance of two in-bounds points:
/// `3 * (2 * COORD_LIMIT)^2`.
pub const D2_LIMIT: i64 = 12_000_000_000_000;

/// Strict upper bound on the (rounded-down) Euclidean distance of two
/// in-bounds points: `EDGE_LIMIT^2 > D2_LIMIT`.
pub const EDGE_LIMIT: i64 = 3_464_102;

/// A 3-D point with integer coordinates.
#[derive(Clone, Copy, PartialEq, Eq, Structural, Debug)]
pub struct Point3 {
    pub x: i64,
    pub y: i64,
    pub z: i64,
}

pub open spec fn sq(a: int) -> int {
    a * a
}

/// All three coordinates within `COORD_LIMIT` in magnitude.
pub open spec fn in_bounds(p: Point3) -> bool {
    &&& -COORD_LIMIT <= p.x <= COORD_LIMIT
    &&& -COORD_LIMIT <= p.y <= COORD_LIMIT
    &&& -COORD_LIMIT <= p.z <= COORD_LIMIT
}

/// The coordinate of `p` along axis `a` (0 = x, 1 = y, otherwise z).
pub open spec fn axis_coord(p: Point3, a: int) -> int {
    if a == 0 {
        p.x as int
    } else if a == 1 {
        p.y as int
    } else {
        p.z as int
    }
}

/// Squared Euclidean distance.
pub open spec fn dist2(p: Point3, q: Point3) -> int {
    sq(p.x - q.x) + sq(p.y - q.y) + sq(p.z - q.z)
}

pub proof fn lemma_sq_nonneg(a: int)
    ensures
        sq(a) >= 0,
{
    assert(a * a >= 0) by (nonlinear_arith);
}

/// Squaring is monotone over magnitudes: if `-m <= a <= m` then `a^2 <= m^2`.
pub proof fn lemma_sq_range(a: int, m: int)
    requires
        -m <= a <= m,
    ensures
        0 <= sq(a) <= sq(m),
{
    assert(a * a >= 0) by (nonlinear_arith);
    assert(-m <= a <= m ==> a * a <= m * m) by (nonlinear_arith);
}

pub proof fn lemma_sq_mono(a: int, b: int)
    requires
        0 <= a <= b,
    ensures
        sq(a) <= sq(b),
{
    assert(0 <= a <= b ==> a * a <= b * b) by (nonlinear_arith);
}

/// A point on the far side of the splitting plane is at least as far,
/// along that axis, as the plane itself.
pub proof fn lemma_plane_separates(t: int, m: int, c: int)
    requires
        (t <= m && m <= c) || (c <= m && m <= t),
    ensures
        sq(t - c) >= sq(t - m),
{
    assert(((t <= m && m <= c) || (c <= m && m <= t)) ==> (t - c) * (t - c) >= (t - m) * (t - m))
        by (nonlinear_arith);
}

/// The squared distance dominates the squared gap along any single axis.
pub proof fn lemma_axis_le_dist2(p: Point3, q: Point3, a: int)
    ensures
        sq(axis_coord(p, a) - axis_coord(q, a)) <= dist2(p, q),
{
    lemma_sq_nonneg(p.x - q.x);
    lemma_sq_nonneg(p.y - q.y);
    lemma_sq_nonneg(p.z - q.z);
}

pub proof fn lemma_mul_le(a: int, b: int, m: int)
    requires
        0 <= a <= m,
        0 <= b,
    ensures
        a * b <= m * b,
{
    assert((0 <= a <= m && 0 <= b) ==> a * b <= m * b) by (nonlinear_arith);
}

pub proof fn lemma_dist2_nonneg(p: Point3, q: Point3)
    ensures
        dist2(p, q) >= 0,
{
    lemma_sq_nonneg(p.x - q.x);
    lemma_sq_nonneg(p.y - q.y);
    lemma_sq_nonneg(p.z - q.z);
}

pub proof fn lemma_dist2_bound(p: Point3, q: Point3)
    requires
        in_bounds(p),
        in_bounds(q),
    ensures
        0 <= dist2(p, q) <= D2_LIMIT,
{
    lemma_sq_range(p.x - q.x, 2_000_000);
    lemma_sq_range(p.y - q.y, 2_000_000);
    lemma_sq_range(p.z - q.z, 2_000_000);
    assert(sq(2_000_000) == 4_000_000_000_000int) by (nonlinear_arith);
}

/// Only a point itself is at squared distance zero.
pub proof fn lemma_dist2_zero(p: Point3, q: Point3)
    requires
        dist2(p, q) == 0,
    ensures
        p == q,
{
    lemma_sq_nonneg(p.x - q.x);
    lemma_sq_nonneg(p.y - q.y);
    lemma_sq_nonneg(p.z - q.z);
    assert(p.x - q.x == 0 && p.y - q.y == 0 && p.z - q.z == 0) by {
        assert((p.x - q.x) * (p.x - q.x) == 0 ==> p.x - q.x == 0) by (nonlinear_arith);
        assert((p.y - q.y) * (p.y - q.y) == 0 ==> p.y - q.y == 0) by (nonlinear_arith);
        assert((p.z - q.z) * (p.z - q.z) == 0 ==> p.z - q.z == 0) by (nonlinear_arith);
    }
}

/// Squared Euclidean distance of two in-bounds points.
pub fn dist2_e(p: &Point3, q: &Point3) -> (r: i64)
    requires
        in_bounds(*p),
        in_bounds(*q),
    ensures
        r as int == dist2(*p, *q),
        0 <= r <= D2_LIMIT,
{
    proof {
        lemma_sq_range(p.x - q.x, 2_000_000);
        lemma_sq_range(p.y - q.y, 2_000_000);
        lemma_sq_range(p.z - q.z, 2_000_000);
        assert(sq(2_000_000) == 4_000_000_000_000int) by (nonlinear_arith);
    }
    let dx = p.x - q.x;
    let dy = p.y - q.y;
    let dz = p.z - q.z;
    dx * dx + dy * dy + dz * dz
}

/// Integer square root, rounded down.
pub fn isqrt(n: i64) -> (r: i64)
    requires
        0 <= n <= D2_LIMIT,
    ensures
        0 <= r < EDGE_LIMIT,
        sq(r as int) <= n as int,
        (n as int) < sq(r as int + 1),
{
    let mut lo: i64 = 0;
    let mut hi: i64 = EDGE_LIMIT;
    assert(sq(EDGE_LIMIT as int) > D2_LIMIT as int) by {
        assert(3_464_102int * 3_464_102 > 12_000_000_000_000int) by (nonlinear_arith);
    }
    while lo + 1 < hi
        invariant
            0 <= lo < hi <= EDGE_LIMIT,
            0 <= n <= D2_LIMIT,
            sq(lo as int) <= n as int,
            (n as int) < sq(hi as int),
        decreases hi - lo,
    {
        let mid = lo + (hi - lo) / 2;
        proof {
            lemma_sq_range(mid as int, EDGE_LIMIT as int);
            assert(3_464_102int * 3_464_102 <= 13_000_000_000_000int) by (nonlinear_arith);
        }
        if mid * mid <= n {
            lo = mid;
        } else {
            hi = mid;
        }
    }
    lo
}

} // verus!
