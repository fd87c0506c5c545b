//! Integer square roots and distances between world positions.

use crate::grid::WorldPos;
use vstd::prelude::*;

verus! {

/// Whether `r` is the square root of `n` rounded down.
pub open spec fn is_floor_sqrt(n: int, r: int) -> bool {
    0 <= r && r * r <= n < (r + 1) * (r + 1)
}

/// The square root of `n`, rounded down to a whole number.
pub open spec fn floor_sqrt(n: int) -> int {
    choose|r: int| #[trigger] is_floor_sqrt(n, r)
}

/// The square root of `n`, rounded up to a whole number.
pub open spec fn ceil_sqrt(n: int) -> int {
    let r = floor_sqrt(n);
    if r * r == n {
        r
    } else {
        r + 1
    }
}

/// Squares grow with their non-negative argument.
pub proof fn lemma_square_monotonic(a: int, b: int)
    requires
        0 <= a <= b,
    ensures
        a * a <= b * b,
{
    assert(a * a <= b * b) by (nonlinear_arith)
        requires
            0 <= a <= b,
    ;
}

/// A smaller square belongs to a smaller non-negative number.
pub proof fn lemma_square_order(a: int, b: int)
    requires
        0 <= a,
        0 <= b,
        a * a < b * b,
    ensures
        a < b,
{
    if a >= b {
        lemma_square_monotonic(b, a);
    }
}

/// Every non-negative number has a rounded-down square root.
pub proof fn lemma_floor_sqrt_exists(n: int)
    requires
        0 <= n,
    ensures
        exists|r: int| #[trigger] is_floor_sqrt(n, r),
    decreases n,
{
    if n == 0 {
        assert(is_floor_sqrt(0, 0));
    } else {
        let m = n - 1;
        lemma_floor_sqrt_exists(m);
        let r = choose|r: int| #[trigger] is_floor_sqrt(m, r);
        if (r + 1) * (r + 1) <= n {
            assert((r + 2) * (r + 2) > (r + 1) * (r + 1)) by (nonlinear_arith)
                requires
                    0 <= r,
            ;
            assert(is_floor_sqrt(n, r + 1));
        } else {
            assert(is_floor_sqrt(n, r));
        }
    }
}

/// At most one number is the rounded-down square root of `n`.
pub proof fn lemma_floor_sqrt_unique(n: int, r: int, s: int)
    requires
        is_floor_sqrt(n, r),
        is_floor_sqrt(n, s),
    ensures
        r == s,
{
    if r < s {
        lemma_square_monotonic(r + 1, s);
    }
    if s < r {
        lemma_square_monotonic(s + 1, r);
    }
}

/// `floor_sqrt(n)` is the rounded-down square root of `n`.
pub proof fn lemma_floor_sqrt(n: int)
    requires
        0 <= n,
    ensures
        is_floor_sqrt(n, floor_sqrt(n)),
{
    lemma_floor_sqrt_exists(n);
}

/// `ceil_sqrt(n)` is the least non-negative number whose square reaches `n`.
pub proof fn lemma_ceil_sqrt(n: int)
    requires
        0 <= n,
    ensures
        0 <= ceil_sqrt(n),
        ceil_sqrt(n) * ceil_sqrt(n) >= n,
        forall|k: int| 0 <= k && #[trigger] (k * k) >= n ==> ceil_sqrt(n) <= k,
{
    lemma_floor_sqrt(n);
    let r = floor_sqrt(n);
    assert forall|k: int| 0 <= k && #[trigger] (k * k) >= n implies ceil_sqrt(n) <= k by {
        if r * r == n {
            if k < r {
                lemma_square_monotonic(k + 1, r);
                assert((k + 1) * (k + 1) > k * k) by (nonlinear_arith)
                    requires
                        0 <= k,
                ;
            }
        } else {
            if k <= r {
                lemma_square_monotonic(k, r);
            }
        }
    }
}

/// Square root of `n`, rounded down.
pub fn isqrt(n: u128) -> (r: u128)
    ensures
        r == floor_sqrt(n as int),
        is_floor_sqrt(n as int, r as int),
        r < 0x1_0000_0000_0000_0000,
{
    let mut low: u128 = 0;
    let mut high: u128 = 0x1_0000_0000_0000_0000;
    assert(n < high * high) by (nonlinear_arith)
        requires
            n <= u128::MAX,
            high == 0x1_0000_0000_0000_0000,
    ;
    while high - low > 1
        invariant
            low < high <= 0x1_0000_0000_0000_0000,
            low * low <= n < high * high,
        decreases high - low,
    {
        let mid: u128 = low + (high - low) / 2;
        assert(mid * mid <= u128::MAX) by (nonlinear_arith)
            requires
                0 <= mid < 0x1_0000_0000_0000_0000,
        ;
        if mid * mid <= n {
            low = mid;
        } else {
            high = mid;
        }
    }
    proof {
        assert(high == low + 1);
        assert(is_floor_sqrt(n as int, low as int));
        lemma_floor_sqrt(n as int);
        lemma_floor_sqrt_unique(n as int, low as int, floor_sqrt(n as int));
    }
    low
}

/// Square of the straight-line distance between two world positions.
pub open spec fn distance_squared(a: WorldPos, b: WorldPos) -> int {
    (b.x - a.x) * (b.x - a.x) + (b.z - a.z) * (b.z - a.z)
}

/// Straight-line distance between two world positions, measured in units
/// `scale` times finer than world units and rounded up to a whole one.
pub open spec fn scaled_distance(a: WorldPos, b: WorldPos, scale: int) -> int {
    ceil_sqrt(scale * scale * distance_squared(a, b))
}

/// Sum of the scaled distances between consecutive points of `path`.
pub open spec fn scaled_length(path: Seq<WorldPos>, scale: int) -> int
    decreases path.len(),
{
    if path.len() <= 1 {
        0
    } else {
        scaled_length(path.drop_last(), scale) + scaled_distance(
            path[path.len() - 2],
            path[path.len() - 1],
            scale,
        )
    }
}

/// For two plane vectors whose lengths are at most `p` and `q`, the scalar
/// product is at most `p * q`.
pub proof fn lemma_dot_bound(ax: int, ay: int, bx: int, by: int, p: int, q: int)
    requires
        0 <= p,
        0 <= q,
        ax * ax + ay * ay <= p * p,
        bx * bx + by * by <= q * q,
    ensures
        ax * bx + ay * by <= p * q,
{
    let dot = ax * bx + ay * by;
    let na = ax * ax + ay * ay;
    let nb = bx * bx + by * by;
    let cross = ax * by - ay * bx;
    let (a2, b2, c2, d2) = (ax * ax, ay * ay, bx * bx, by * by);
    let (e, f, g, h) = (ax * bx, ay * by, ax * by, ay * bx);
    assert(a2 * c2 == e * e) by (nonlinear_arith)
        requires
            a2 == ax * ax,
            c2 == bx * bx,
            e == ax * bx,
    ;
    assert(b2 * d2 == f * f) by (nonlinear_arith)
        requires
            b2 == ay * ay,
            d2 == by * by,
            f == ay * by,
    ;
    assert(a2 * d2 == g * g) by (nonlinear_arith)
        requires
            a2 == ax * ax,
            d2 == by * by,
            g == ax * by,
    ;
    assert(b2 * c2 == h * h) by (nonlinear_arith)
        requires
            b2 == ay * ay,
            c2 == bx * bx,
            h == ay * bx,
    ;
    assert(e * f == g * h) by (nonlinear_arith)
        requires
            e == ax * bx,
            f == ay * by,
            g == ax * by,
            h == ay * bx,
    ;
    assert((a2 + b2) * (c2 + d2) == a2 * c2 + a2 * d2 + b2 * c2 + b2 * d2) by (nonlinear_arith);
    assert((e + f) * (e + f) == e * e + 2 * (e * f) + f * f) by (nonlinear_arith);
    assert((g - h) * (g - h) == g * g - 2 * (g * h) + h * h) by (nonlinear_arith);
    assert(na * nb == dot * dot + cross * cross);
    assert(cross * cross >= 0) by (nonlinear_arith);
    assert(0 <= na && 0 <= nb) by (nonlinear_arith)
        requires
            na == ax * ax + ay * ay,
            nb == bx * bx + by * by,
    ;
    assert(na * nb <= (p * p) * (q * q)) by (nonlinear_arith)
        requires
            0 <= na <= p * p,
            0 <= nb <= q * q,
    ;
    assert((p * p) * (q * q) == (p * q) * (p * q)) by (nonlinear_arith);
    assert(0 <= p * q) by (nonlinear_arith)
        requires
            0 <= p,
            0 <= q,
    ;
    if dot > p * q {
        lemma_square_monotonic(p * q + 1, dot);
        assert((p * q + 1) * (p * q + 1) > (p * q) * (p * q)) by (nonlinear_arith)
            requires
                0 <= p * q,
        ;
        assert(false);
    }
}

/// For two plane vectors whose lengths are at most `p` and `q`, the length
/// of their sum is at most `p + q`.
pub proof fn lemma_vector_sum_bound(ax: int, ay: int, bx: int, by: int, p: int, q: int)
    requires
        0 <= p,
        0 <= q,
        ax * ax + ay * ay <= p * p,
        bx * bx + by * by <= q * q,
    ensures
        (ax + bx) * (ax + bx) + (ay + by) * (ay + by) <= (p + q) * (p + q),
        (ax + bx) * (ax + bx) + (ay + by) * (ay + by) == (ax * ax + ay * ay) + 2 * (ax * bx + ay * by)
            + (bx * bx + by * by),
        (p + q) * (p + q) == p * p + 2 * (p * q) + q * q,
{
    lemma_dot_bound(ax, ay, bx, by, p, q);
    let dot = ax * bx + ay * by;
    let na = ax * ax + ay * ay;
    let nb = bx * bx + by * by;
    assert((ax + bx) * (ax + bx) + (ay + by) * (ay + by) == na + 2 * dot + nb) by (nonlinear_arith)
        requires
            dot == ax * bx + ay * by,
            na == ax * ax + ay * ay,
            nb == bx * bx + by * by,
    ;
    assert((p + q) * (p + q) == p * p + 2 * (p * q) + q * q) by (nonlinear_arith);
}

/// Triangle inequality: going from `a` to `c` by way of `b` is no shorter
/// than going straight.
pub proof fn lemma_distance_triangle(a: WorldPos, b: WorldPos, c: WorldPos, scale: int)
    requires
        0 <= scale,
    ensures
        scaled_distance(a, c, scale) <= scaled_distance(a, b, scale) + scaled_distance(b, c, scale),
{
    let ux = scale * (b.x - a.x);
    let uz = scale * (b.z - a.z);
    let vx = scale * (c.x - b.x);
    let vz = scale * (c.z - b.z);
    let n1 = scale * scale * distance_squared(a, b);
    let n2 = scale * scale * distance_squared(b, c);
    let n3 = scale * scale * distance_squared(a, c);
    assert(n1 == ux * ux + uz * uz) by (nonlinear_arith)
        requires
            ux == scale * (b.x - a.x),
            uz == scale * (b.z - a.z),
            n1 == scale * scale * ((b.x - a.x) * (b.x - a.x) + (b.z - a.z) * (b.z - a.z)),
    ;
    assert(n2 == vx * vx + vz * vz) by (nonlinear_arith)
        requires
            vx == scale * (c.x - b.x),
            vz == scale * (c.z - b.z),
            n2 == scale * scale * ((c.x - b.x) * (c.x - b.x) + (c.z - b.z) * (c.z - b.z)),
    ;
    assert(ux + vx == scale * (c.x - a.x) && uz + vz == scale * (c.z - a.z)) by (nonlinear_arith)
        requires
            ux == scale * (b.x - a.x),
            uz == scale * (b.z - a.z),
            vx == scale * (c.x - b.x),
            vz == scale * (c.z - b.z),
    ;
    assert(n3 == (ux + vx) * (ux + vx) + (uz + vz) * (uz + vz)) by (nonlinear_arith)
        requires
            ux + vx == scale * (c.x - a.x),
            uz + vz == scale * (c.z - a.z),
            n3 == scale * scale * ((c.x - a.x) * (c.x - a.x) + (c.z - a.z) * (c.z - a.z)),
    ;
    assert(0 <= n1 && 0 <= n2 && 0 <= n3) by (nonlinear_arith)
        requires
            n1 == ux * ux + uz * uz,
            n2 == vx * vx + vz * vz,
            n3 == (ux + vx) * (ux + vx) + (uz + vz) * (uz + vz),
    ;
    lemma_ceil_sqrt(n1);
    lemma_ceil_sqrt(n2);
    lemma_ceil_sqrt(n3);
    let p = ceil_sqrt(n1);
    let q = ceil_sqrt(n2);
    lemma_vector_sum_bound(ux, uz, vx, vz, p, q);
    assert((p + q) * (p + q) >= n3);
}

/// A path is at least as long as the straight line from its first point to
/// its last, at every scale of measurement.
pub proof fn lemma_path_not_shorter_than_line(path: Seq<WorldPos>, scale: int)
    requires
        path.len() >= 1,
        0 <= scale,
    ensures
        scaled_length(path, scale) >= scaled_distance(path[0], path[path.len() - 1], scale),
    decreases path.len(),
{
    if path.len() == 1 {
        lemma_distance_to_self(path[0], scale);
    } else {
        let head = path.drop_last();
        lemma_path_not_shorter_than_line(head, scale);
        lemma_distance_triangle(path[0], path[path.len() - 2], path[path.len() - 1], scale);
    }
}

/// A point is at distance zero from itself.
pub proof fn lemma_distance_to_self(a: WorldPos, scale: int)
    ensures
        scaled_distance(a, a, scale) == 0,
{
    let n = scale * scale * distance_squared(a, a);
    assert(n == 0) by (nonlinear_arith)
        requires
            n == scale * scale * (0 * 0 + 0 * 0),
    ;
    lemma_floor_sqrt(0);
    lemma_floor_sqrt_unique(0, 0, floor_sqrt(0));
}

/// The part of a path from its point `a` to its point `b` is at least as
/// long as the straight line between the two.
pub proof fn lemma_stretch_not_shorter_than_line(path: Seq<WorldPos>, scale: int, a: int, b: int)
    requires
        0 <= a <= b < path.len(),
        0 <= scale,
    ensures
        scaled_distance(path[a], path[b], scale) <= scaled_length(path.take(b + 1), scale)
            - scaled_length(path.take(a + 1), scale),
    decreases b - a,
{
    if a == b {
        lemma_distance_to_self(path[a], scale);
    } else {
        lemma_stretch_not_shorter_than_line(path, scale, a, b - 1);
        lemma_distance_triangle(path[a], path[b - 1], path[b], scale);
        assert(path.take(b + 1).drop_last() =~= path.take(b));
    }
}

/// Walking from the first point of a path to its last by way of some of
/// its points only, in their order, is no longer than walking the path.
pub proof fn lemma_selection_not_longer(path: Seq<WorldPos>, indices: Seq<int>, scale: int)
    requires
        0 <= scale,
        indices.len() >= 1,
        forall|k: int| 0 <= k < indices.len() ==> 0 <= #[trigger] indices[k] < path.len(),
        forall|k: int| 0 <= k < indices.len() - 1 ==> #[trigger] indices[k] < indices[k + 1],
    ensures
        scaled_length(Seq::new(indices.len(), |k: int| path[indices[k]]), scale) <= scaled_length(
            path.take(indices[indices.len() - 1] + 1),
            scale,
        ) - scaled_length(path.take(indices[0] + 1), scale),
    decreases indices.len(),
{
    let chosen = Seq::new(indices.len(), |k: int| path[indices[k]]);
    let m = indices.len() as int;
    if m > 1 {
        let fewer = indices.drop_last();
        assert(fewer[0] == indices[0]);
        assert(fewer[fewer.len() - 1] == indices[m - 2]);
        assert forall|k: int| 0 <= k < fewer.len() - 1 implies #[trigger] fewer[k] < fewer[k + 1] by {
            assert(indices[k] < indices[k + 1]);
        }
        lemma_selection_not_longer(path, fewer, scale);
        assert(chosen.drop_last() =~= Seq::new(fewer.len(), |k: int| path[fewer[k]]));
        assert(indices[m - 2] < indices[m - 2 + 1]);
        lemma_stretch_not_shorter_than_line(path, scale, indices[m - 2], indices[m - 1]);
    }
}

/// The square root of a square is the number squared.
pub proof fn lemma_ceil_sqrt_of_square(n: int, x: int)
    requires
        0 <= x,
        n == x * x,
    ensures
        ceil_sqrt(n) == x,
{
    lemma_square_monotonic(0, x);
    lemma_ceil_sqrt(n);
    let r = ceil_sqrt(n);
    assert(x * x >= n);
    if r < x {
        lemma_square_monotonic(r, x - 1);
        assert((x - 1) * (x - 1) < x * x) by (nonlinear_arith)
            requires
                1 <= x,
        ;
    }
}

/// The diagonal of a square with side `x`, rounded up, times 408 is at
/// most 577 times the side and one.
pub proof fn lemma_ceil_sqrt_of_diagonal(n: int, x: int)
    requires
        0 <= x,
        n == 2 * (x * x),
    ensures
        0 <= 408 * ceil_sqrt(n) <= 577 * (x + 1),
{
    lemma_square_monotonic(0, x);
    lemma_ceil_sqrt(n);
    let k = (577 * x + 407) / 408;
    assert(577 * x <= 408 * k <= 577 * x + 407 && 0 <= k);
    assert((408 * k) * (408 * k) >= (577 * x) * (577 * x)) by (nonlinear_arith)
        requires
            408 * k >= 577 * x,
            0 <= x,
    ;
    assert((408 * k) * (408 * k) == 166464 * (k * k)) by (nonlinear_arith);
    assert((577 * x) * (577 * x) == 332929 * (x * x)) by (nonlinear_arith);
    assert(k * k >= n);
}

} // verus!
