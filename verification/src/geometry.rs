//! Plane geometry for the network: integer coordinates, the floor of the
//! Euclidean distance as edge weight, and saturating distance arithmetic.
//!
//! Distances are `u64` values in the same unit as coordinates, with
//! `INF_DIST` (`u64::MAX`) standing for "+infinity" (no path). Coordinates
//! are bounded by `MAX_COORD`, which keeps every squared distance inside
//! `u64` and every edge weight far below `INF_DIST`, so a finite weight is
//! never confused with "+infinity".

use vstd::prelude::*;

verus! {

/// The distance value standing for "+infinity": reported for station pairs
/// with no connecting path.
pub const INF_DIST: u64 = u64::MAX;

/// Bound on the absolute value of every station coordinate.
pub const MAX_COORD: i64 = 1_000_000_000;

/// Every edge weight is at most this (the diagonal of the coordinate world).
pub const MAX_EDGE_WEIGHT: u64 = 3_000_000_000;

/// A point on the plane, in integer world units.
#[derive(Clone, Copy, PartialEq, Eq, Structural, Debug)]
pub struct Position {
    pub x: i64,
    pub y: i64,
}

/// Whether a position lies inside the coordinate bound.
pub open spec fn in_world(p: Position) -> bool {
    -MAX_COORD <= p.x <= MAX_COORD && -MAX_COORD <= p.y <= MAX_COORD
}

/// Floor of the square root of `n`.
pub open spec fn sqrt_floor(n: int) -> int
    decreases n,
{
    if n < 1 {
        0
    } else {
        let r = sqrt_floor(n - 1);
        if (r + 1) * (r + 1) <= n {
            r + 1
        } else {
            r
        }
    }
}

/// `sqrt_floor(n)` is the unique `r >= 0` with `r * r <= n < (r + 1) * (r + 1)`.
pub proof fn lemma_sqrt_floor(n: int)
    requires
        n >= 0,
    ensures
        sqrt_floor(n) >= 0,
        sqrt_floor(n) * sqrt_floor(n) <= n,
        n < (sqrt_floor(n) + 1) * (sqrt_floor(n) + 1),
    decreases n,
{
    if n == 0 {
    } else {
        lemma_sqrt_floor(n - 1);
        let r = sqrt_floor(n - 1);
        if (r + 1) * (r + 1) <= n {
            assert(n - 1 < (r + 1) * (r + 1));
            assert(n == (r + 1) * (r + 1));
            assert((r + 1) * (r + 1) < (r + 2) * (r + 2)) by (nonlinear_arith)
                requires r >= 0;
        }
    }
}

/// Any `r` with `r * r <= n < (r + 1) * (r + 1)` equals `sqrt_floor(n)`.
pub proof fn lemma_sqrt_floor_unique(n: int, r: int)
    requires
        n >= 0,
        r >= 0,
        r * r <= n,
        n < (r + 1) * (r + 1),
    ensures
        r == sqrt_floor(n),
{
    lemma_sqrt_floor(n);
    let s = sqrt_floor(n);
    if r < s {
        assert((r + 1) * (r + 1) <= s * s) by (nonlinear_arith)
            requires 0 <= r, r < s;
    }
    if s < r {
        assert((s + 1) * (s + 1) <= r * r) by (nonlinear_arith)
            requires 0 <= s, s < r;
    }
}

/// If `n < (b + 1) * (b + 1)` then `sqrt_floor(n) <= b`.
pub proof fn lemma_sqrt_floor_le(n: int, b: int)
    requires
        n >= 0,
        b >= 0,
        n < (b + 1) * (b + 1),
    ensures
        sqrt_floor(n) <= b,
{
    lemma_sqrt_floor(n);
    let s = sqrt_floor(n);
    if b < s {
        assert((b + 1) * (b + 1) <= s * s) by (nonlinear_arith)
            requires 0 <= b, b < s;
    }
}

/// Floor of the square root, by binary search on the root.
pub fn isqrt(n: u64) -> (r: u64)
    ensures
        r == sqrt_floor(n as int),
        r * r <= n,
        n < (r + 1) * (r + 1),
{
    let mut lo: u64 = 0;
    let mut hi: u64 = 0x1_0000_0000;
    if n >= 0xffff_fffe_0000_0001 {
        // n is at least (2^32 - 1)^2, so the root is 2^32 - 1.
        proof {
            lemma_sqrt_floor_unique(n as int, 0xffff_ffffint);
        }
        return 0xffff_ffff;
    }
    while lo + 1 < hi
        invariant
            lo < hi <= 0x1_0000_0000,
            lo * lo <= n,
            n < hi * hi,
        decreases hi - lo,
    {
        let mid = lo + (hi - lo) / 2;
        assert(mid * mid <= 0xffff_ffff * 0xffff_ffff) by (nonlinear_arith)
            requires 0 <= mid <= 0xffff_ffff;
        if mid * mid <= n {
            lo = mid;
        } else {
            hi = mid;
        }
    }
    proof {
        lemma_sqrt_floor_unique(n as int, lo as int);
    }
    lo
}

/// Edge weight between two points: floor of their Euclidean distance.
pub open spec fn euclid_weight(a: Position, b: Position) -> int {
    sqrt_floor((a.x - b.x) * (a.x - b.x) + (a.y - b.y) * (a.y - b.y))
}

/// The weight of an in-world edge stays far below `INF_DIST`.
pub proof fn lemma_euclid_weight_bound(a: Position, b: Position)
    requires
        in_world(a),
        in_world(b),
    ensures
        0 <= euclid_weight(a, b) <= MAX_EDGE_WEIGHT,
{
    let dx = a.x - b.x;
    let dy = a.y - b.y;
    assert(dx * dx + dy * dy <= 8_000_000_000_000_000_000) by (nonlinear_arith)
        requires -2_000_000_000 <= dx <= 2_000_000_000, -2_000_000_000 <= dy <= 2_000_000_000;
    assert(dx * dx >= 0) by (nonlinear_arith);
    assert(dy * dy >= 0) by (nonlinear_arith);
    lemma_sqrt_floor(dx * dx + dy * dy);
    lemma_sqrt_floor_le(dx * dx + dy * dy, MAX_EDGE_WEIGHT as int);
}

/// Computes `euclid_weight` on in-world positions.
pub fn euclid_dist(a: Position, b: Position) -> (r: u64)
    requires
        in_world(a),
        in_world(b),
    ensures
        r == euclid_weight(a, b),
        r <= MAX_EDGE_WEIGHT,
{
    let dx: i64 = a.x - b.x;
    let dy: i64 = a.y - b.y;
    assert(dx * dx + dy * dy <= 8_000_000_000_000_000_000 && dx * dx >= 0 && dy * dy >= 0)
        by (nonlinear_arith)
        requires -2_000_000_000 <= dx <= 2_000_000_000, -2_000_000_000 <= dy <= 2_000_000_000;
    let sq: u64 = (dx * dx) as u64 + (dy * dy) as u64;
    let r = isqrt(sq);
    proof {
        lemma_euclid_weight_bound(a, b);
    }
    r
}

/// Distance addition, saturating at "+infinity".
pub open spec fn dist_add(a: u64, b: u64) -> u64 {
    if a + b >= INF_DIST {
        INF_DIST
    } else {
        (a + b) as u64
    }
}

/// The smaller of two distances.
pub open spec fn dist_min(a: u64, b: u64) -> u64 {
    if a <= b {
        a
    } else {
        b
    }
}

/// Computes `dist_add`.
pub fn dist_add_exec(a: u64, b: u64) -> (r: u64)
    ensures
        r == dist_add(a, b),
{
    if a >= INF_DIST - b {
        INF_DIST
    } else {
        a + b
    }
}

} // verus!
