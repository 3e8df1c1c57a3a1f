//! Pure integer geometry: Euclidean distance (in whole meters, rounded down)
//! between coordinates given as north/east offsets from the nest, and the
//! total length of a round-trip route nest -> stops... -> nest.

use vstd::prelude::*;

verus! {

/// `r` is the integer square root of `n`: the greatest integer whose square
/// does not exceed `n`.
pub open spec fn is_sqrt_floor(n: int, r: int) -> bool {
    0 <= r && r * r <= n && n < (r + 1) * (r + 1)
}

/// The integer square root of `n` (meaningful for `n >= 0`;
/// see `lemma_sqrt_floor_exists`).
pub open spec fn sqrt_floor(n: int) -> int {
    choose|r: int| is_sqrt_floor(n, r)
}

/// No two integers both satisfy `is_sqrt_floor` for the same `n`.
pub proof fn lemma_sqrt_floor_unique(n: int, r1: int, r2: int)
    requires
        is_sqrt_floor(n, r1),
        is_sqrt_floor(n, r2),
    ensures
        r1 == r2,
{
    if r1 < r2 {
        assert((r1 + 1) * (r1 + 1) <= r2 * r2) by (nonlinear_arith)
            requires 0 <= r1, r1 < r2;
    }
    if r2 < r1 {
        assert((r2 + 1) * (r2 + 1) <= r1 * r1) by (nonlinear_arith)
            requires 0 <= r2, r2 < r1;
    }
}

/// Every nonnegative `n` has an integer square root, and `sqrt_floor` is it.
pub proof fn lemma_sqrt_floor_exists(n: int)
    requires
        n >= 0,
    ensures
        is_sqrt_floor(n, sqrt_floor(n)),
    decreases n,
{
    if n == 0 {
        assert(is_sqrt_floor(0, 0));
    } else {
        lemma_sqrt_floor_exists(n - 1);
        let r = sqrt_floor(n - 1);
        if (r + 1) * (r + 1) <= n {
            assert(n - 1 < (r + 1) * (r + 1));
            assert(n == (r + 1) * (r + 1));
            assert((r + 1 + 1) * (r + 1 + 1) > n) by (nonlinear_arith)
                requires n == (r + 1) * (r + 1), r >= 0;
            assert(is_sqrt_floor(n, r + 1));
        } else {
            assert(is_sqrt_floor(n, r));
        }
    }
}

/// An integer square root of a value below `2^66` is below `2^33`.
pub proof fn lemma_sqrt_floor_bound(n: int, r: int)
    requires
        is_sqrt_floor(n, r),
        n < 0x40000000000000000,
    ensures
        r < 0x200000000,
{
    if r >= 0x200000000 {
        assert(r * r >= 0x200000000 * 0x200000000) by (nonlinear_arith)
            requires r >= 0x200000000;
    }
}

/// The integer square root of `n`, by binary search.
pub fn isqrt(n: u128) -> (r: u64)
    requires
        n < 0x40000000000000000,
    ensures
        is_sqrt_floor(n as int, r as int),
        r as int == sqrt_floor(n as int),
        r < 0x200000000,
{
    let mut lo: u128 = 0;
    let mut hi: u128 = 0x10000000000000000;
    proof {
        assert((0x10000000000000000 as int) * (0x10000000000000000 as int)
            > 0x40000000000000000) by (nonlinear_arith);
    }
    while lo + 1 < hi
        invariant
            lo < hi <= 0x10000000000000000,
            (lo as int) * (lo as int) <= n as int,
            (n as int) < (hi as int) * (hi as int),
        decreases hi - lo,
    {
        let mid = lo + (hi - lo) / 2;
        proof {
            assert(mid < 0x10000000000000000);
            assert((mid as int) * (mid as int) < 0x100000000000000000000000000000000)
                by (nonlinear_arith)
                requires (mid as int) < 0x10000000000000000, mid >= 0;
        }
        if mid * mid <= n {
            lo = mid;
        } else {
            hi = mid;
        }
    }
    proof {
        assert(is_sqrt_floor(n as int, lo as int));
        lemma_sqrt_floor_exists(n as int);
        lemma_sqrt_floor_unique(n as int, lo as int, sqrt_floor(n as int));
        lemma_sqrt_floor_bound(n as int, lo as int);
    }
    lo as u64
}

/// Euclidean distance in whole meters (rounded down) between two points,
/// each given as (north, east) offsets in meters.
pub open spec fn dist(a: (int, int), b: (int, int)) -> int {
    sqrt_floor((a.0 - b.0) * (a.0 - b.0) + (a.1 - b.1) * (a.1 - b.1))
}

/// The square of an integer of magnitude below `2^32` is below `2^64`.
pub proof fn lemma_square_bound(x: int)
    requires
        x < 0x100000000,
        x > -0x100000000,
    ensures
        0 <= x * x < 0x10000000000000000,
{
    assert(0 <= x * x < 0x10000000000000000) by (nonlinear_arith)
        requires x < 0x100000000 && x > -0x100000000;
}

/// Distance is symmetric.
pub proof fn lemma_dist_symmetric(a: (int, int), b: (int, int))
    ensures
        dist(a, b) == dist(b, a),
{
    assert((a.0 - b.0) * (a.0 - b.0) == (b.0 - a.0) * (b.0 - a.0)) by (nonlinear_arith);
    assert((a.1 - b.1) * (a.1 - b.1) == (b.1 - a.1) * (b.1 - a.1)) by (nonlinear_arith);
}

/// Euclidean distance in whole meters (rounded down) between two points.
pub fn distance_m(a: (i32, i32), b: (i32, i32)) -> (d: u64)
    ensures
        d == dist((a.0 as int, a.1 as int), (b.0 as int, b.1 as int)),
        d < 0x200000000,
{
    let dx: i64 = (a.0 as i64) - (b.0 as i64);
    let dy: i64 = (a.1 as i64) - (b.1 as i64);
    proof {
        lemma_square_bound(dx as int);
        lemma_square_bound(dy as int);
    }
    let sq: i128 = (dx as i128) * (dx as i128) + (dy as i128) * (dy as i128);
    let n: u128 = sq as u128;
    isqrt(n)
}

/// The position of the nest: the origin of the coordinate system.
pub open spec fn nest() -> (int, int) {
    (0, 0)
}

/// Total length of the path `from -> ps[0] -> ... -> ps[last] -> nest`.
pub open spec fn path_len_from(from: (int, int), ps: Seq<(int, int)>) -> int
    decreases ps.len(),
{
    if ps.len() == 0 {
        dist(from, nest())
    } else {
        dist(from, ps[0]) + path_len_from(ps[0], ps.drop_first())
    }
}

/// Total round-trip length of the route `nest -> ps[0] -> ... -> ps[last] -> nest`;
/// an empty route has length zero.
pub open spec fn round_trip_len(ps: Seq<(int, int)>) -> int {
    if ps.len() == 0 {
        0
    } else {
        path_len_from(nest(), ps)
    }
}

/// Appending a stop `p` to a route replaces the final return leg by the legs
/// `last -> p -> nest`, where `last` is the previous final stop (or the start).
proof fn lemma_path_len_push(from: (int, int), ps: Seq<(int, int)>, p: (int, int))
    ensures
        path_len_from(from, ps.push(p)) == path_len_from(from, ps)
            - dist(if ps.len() == 0 { from } else { ps.last() }, nest())
            + dist(if ps.len() == 0 { from } else { ps.last() }, p)
            + dist(p, nest()),
    decreases ps.len(),
{
    if ps.len() == 0 {
        assert(ps.push(p)[0] == p);
        assert(ps.push(p).drop_first() =~= Seq::<(int, int)>::empty());
        assert(path_len_from(from, ps.push(p))
            == dist(from, p) + path_len_from(p, Seq::<(int, int)>::empty()));
        assert(path_len_from(p, Seq::<(int, int)>::empty()) == dist(p, nest()));
        assert(path_len_from(from, ps) == dist(from, nest()));
    } else {
        assert(ps.push(p)[0] == ps[0]);
        assert(ps.push(p).drop_first() =~= ps.drop_first().push(p));
        assert(path_len_from(from, ps.push(p))
            == dist(from, ps[0]) + path_len_from(ps[0], ps.drop_first().push(p)));
        assert(path_len_from(from, ps)
            == dist(from, ps[0]) + path_len_from(ps[0], ps.drop_first()));
        lemma_path_len_push(ps[0], ps.drop_first(), p);
        if ps.len() == 1 {
            assert(ps.drop_first().len() == 0);
            assert(ps.last() == ps[0]);
        } else {
            assert(ps.drop_first().last() == ps.last());
        }
    }
}

/// `round_trip_len` after appending a stop, in terms of the route before.
pub proof fn lemma_round_trip_push(ps: Seq<(int, int)>, p: (int, int))
    ensures
        ps.len() == 0 ==> round_trip_len(ps.push(p)) == dist(nest(), p) + dist(p, nest()),
        ps.len() > 0 ==> round_trip_len(ps.push(p)) == round_trip_len(ps)
            - dist(ps.last(), nest()) + dist(ps.last(), p) + dist(p, nest()),
{
    lemma_path_len_push(nest(), ps, p);
}

} // verus!
