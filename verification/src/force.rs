//! Force-directed layout over integer coordinates: a repulsion ("push")
//! between every pair of distinct nodes whose magnitude is highest at
//! distance zero and falls off inversely past a reference distance, and an
//! attraction ("pull") along enabled edges that is zero up to a minimum
//! distance and grows with the distance beyond it, reaching the configured
//! value at twice the minimum distance.

use vstd::prelude::*;

use crate::graph::{Graph, Node, Edge, COORD_LIMIT, VEL_LIMIT};

verus! {

/// Repulsion parameters: the force at distance zero, and the reference
/// distance of the falloff. Zero values are rejected at construction.
pub struct PushConf {
    pub force: u32,
    pub distance: u32,
}

/// Attraction parameters: no pull at or under `min_distance`, and a pull of
/// exactly `force_at_twice_min` at distance `2 * min_distance`. Zero values
/// are rejected at construction.
pub struct PullConf {
    pub min_distance: u32,
    pub force_at_twice_min: u32,
}

impl PushConf {
    /// Both parameters are positive.
    pub open spec fn wf(self) -> bool {
        self.force >= 1 && self.distance >= 1
    }

    /// Builds a configuration, rejecting non-positive parameters.
    pub fn new(force: u32, distance: u32) -> (r: Option<PushConf>)
        ensures
            force >= 1 && distance >= 1 ==> r == Some(PushConf { force, distance }),
            !(force >= 1 && distance >= 1) ==> r is None,
            r is Some ==> r->Some_0.wf(),
    {
        if force >= 1 && distance >= 1 {
            Some(PushConf { force, distance })
        } else {
            None
        }
    }
}

impl PullConf {
    /// Both parameters are positive.
    pub open spec fn wf(self) -> bool {
        self.min_distance >= 1 && self.force_at_twice_min >= 1
    }

    /// Builds a configuration, rejecting non-positive parameters.
    pub fn new(min_distance: u32, force_at_twice_min: u32) -> (r: Option<PullConf>)
        ensures
            min_distance >= 1 && force_at_twice_min >= 1 ==> r == Some(
                PullConf { min_distance, force_at_twice_min },
            ),
            !(min_distance >= 1 && force_at_twice_min >= 1) ==> r is None,
            r is Some ==> r->Some_0.wf(),
    {
        if min_distance >= 1 && force_at_twice_min >= 1 {
            Some(PullConf { min_distance, force_at_twice_min })
        } else {
            None
        }
    }
}

/// The integer square root, rounded down.
pub open spec fn sqrt_floor(n: int) -> int
    decreases n,
{
    if n < 1 {
        0
    } else {
        let s = sqrt_floor(n - 1);
        if (s + 1) * (s + 1) <= n {
            s + 1
        } else {
            s
        }
    }
}

/// `sqrt_floor` is sound: its square is at most `n` and the next square is
/// beyond `n`.
pub proof fn lemma_sqrt_floor_bounds(n: int)
    requires
        n >= 0,
    ensures
        sqrt_floor(n) * sqrt_floor(n) <= n,
        n < (sqrt_floor(n) + 1) * (sqrt_floor(n) + 1),
        sqrt_floor(n) >= 0,
        n >= 1 ==> sqrt_floor(n) >= 1,
    decreases n,
{
    if n >= 1 {
        lemma_sqrt_floor_bounds(n - 1);
        let s = sqrt_floor(n - 1);
        if n == 1 {
            assert(sqrt_floor(0) == 0);
            assert((s + 1) * (s + 1) <= 1) by (nonlinear_arith)
                requires
                    s == 0,
            ;
        }
        if (s + 1) * (s + 1) <= n {
            assert(n <= (s + 1) * (s + 1));
            assert(n < (s + 2) * (s + 2)) by (nonlinear_arith)
                requires
                    s >= 0,
                    n == (s + 1) * (s + 1),
            ;
        } else {
        }
    }
}

/// Any value bracketed by the same squares is `sqrt_floor(n)`.
pub proof fn lemma_sqrt_floor_unique(n: int, r: int)
    requires
        n >= 0,
        r >= 0,
        r * r <= n,
        n < (r + 1) * (r + 1),
    ensures
        r == sqrt_floor(n),
{
    lemma_sqrt_floor_bounds(n);
    let s = sqrt_floor(n);
    if r < s {
        assert((r + 1) * (r + 1) <= s * s) by (nonlinear_arith)
            requires
                0 <= r,
                r + 1 <= s,
        ;
    }
    if s < r {
        assert((s + 1) * (s + 1) <= r * r) by (nonlinear_arith)
            requires
                0 <= s,
                s + 1 <= r,
        ;
    }
}

/// Computes the integer square root by bisection.
pub fn isqrt(n: u64) -> (r: u64)
    requires
        n <= 8_000_000_000_000_000_000,
    ensures
        r as int == sqrt_floor(n as int),
        r <= 4_000_000_000,
        n >= 1 ==> r >= 1,
{
    let mut lo: u64 = 0;
    let mut hi: u64 = 4_000_000_000;
    proof {
        assert((4_000_000_000int) * (4_000_000_000int) > 8_000_000_000_000_000_000int);
    }
    while lo + 1 < hi
        invariant
            lo < hi <= 4_000_000_000,
            n <= 8_000_000_000_000_000_000,
            (lo as int) * (lo as int) <= n as int,
            (n as int) < (hi as int) * (hi as int),
        decreases hi - lo,
    {
        let mid = lo + (hi - lo) / 2;
        proof {
            assert((mid as u128 as int) * (mid as u128 as int) < 0x1_0000_0000_0000_0000_0000 as int)
                by (nonlinear_arith)
                requires
                    mid <= 4_000_000_000u64,
            ;
        }
        if (mid as u128) * (mid as u128) <= n as u128 {
            lo = mid;
        } else {
            hi = mid;
        }
    }
    proof {
        lemma_sqrt_floor_unique(n as int, lo as int);
        lemma_sqrt_floor_bounds(n as int);
    }
    lo
}

/// Repulsion magnitude at a given distance: the configured force at distance
/// zero, falling off inversely with distance past the reference distance.
pub open spec fn spec_push_mag(conf: PushConf, dist: int) -> int {
    (conf.force * conf.distance) as int / (conf.distance + dist)
}

/// The repulsion magnitude never exceeds the configured force, and is
/// exactly the configured force at distance zero.
pub proof fn lemma_push_mag_bounds(conf: PushConf, dist: int)
    requires
        conf.wf(),
        dist >= 0,
    ensures
        0 <= spec_push_mag(conf, dist) <= conf.force,
        dist == 0 ==> spec_push_mag(conf, dist) == conf.force,
{
    let num = (conf.force * conf.distance) as int;
    let den = conf.distance + dist;
    assert(num >= 0) by (nonlinear_arith)
        requires
            conf.force >= 1,
            conf.distance >= 1,
            num == conf.force * conf.distance,
    ;
    vstd::arithmetic::div_mod::lemma_div_pos_is_pos(num, den);
    assert(num <= conf.force * den) by (nonlinear_arith)
        requires
            conf.force >= 1,
            conf.distance >= 1,
            dist >= 0,
            den == conf.distance + dist,
            num == conf.force * conf.distance,
    ;
    assert(num / den <= (conf.force * den) / den) by {
        vstd::arithmetic::div_mod::lemma_div_is_ordered(num, conf.force * den, den);
    };
    assert((conf.force * den) / den == conf.force) by {
        vstd::arithmetic::div_mod::lemma_div_multiples_vanish(conf.force as int, den);
        assert(conf.force * den == den * conf.force) by (nonlinear_arith);
    };
    if dist == 0 {
        assert(num == conf.force * den) by (nonlinear_arith)
            requires
                num == conf.force * conf.distance,
                den == conf.distance,
        ;
    }
}

/// Computes the repulsion magnitude.
pub fn push_magnitude(conf: &PushConf, dist: u64) -> (r: u64)
    requires
        conf.wf(),
    ensures
        r as int == spec_push_mag(*conf, dist as int),
        r <= conf.force,
        dist == 0 ==> r == conf.force,
{
    proof {
        lemma_push_mag_bounds(*conf, dist as int);
        assert((conf.force as int) * (conf.distance as int) < 0x1_0000_0000_0000_0000)
            by (nonlinear_arith)
            requires
                conf.force <= u32::MAX,
                conf.distance <= u32::MAX,
        ;
    }
    let num = (conf.force as u128) * (conf.distance as u128);
    let den = (conf.distance as u128) + (dist as u128);
    (num / den) as u64
}

/// Attraction magnitude at a given distance: zero at or below the minimum
/// distance, then growing linearly (rounded up) so that the configured force
/// is reached exactly at twice the minimum distance.
pub open spec fn spec_pull_mag(conf: PullConf, dist: int) -> int {
    if dist <= conf.min_distance {
        0
    } else {
        (conf.force_at_twice_min * (dist - conf.min_distance) + (conf.min_distance - 1))
            / conf.min_distance as int
    }
}

/// Pull is zero up to the minimum distance, strictly positive past it,
/// non-decreasing in distance, and equal to the configured force at twice
/// the minimum distance.
pub proof fn lemma_pull_mag_laws(conf: PullConf, d1: int, d2: int)
    requires
        conf.wf(),
        0 <= d1 <= d2,
    ensures
        d1 <= conf.min_distance ==> spec_pull_mag(conf, d1) == 0,
        d1 > conf.min_distance ==> spec_pull_mag(conf, d1) >= 1,
        spec_pull_mag(conf, d1) <= spec_pull_mag(conf, d2),
        d1 == 2 * conf.min_distance ==> spec_pull_mag(conf, d1) == conf.force_at_twice_min,
{
    let m = conf.min_distance as int;
    let f = conf.force_at_twice_min as int;
    if d1 > m {
        let num1 = f * (d1 - m) + (m - 1);
        assert(f * (d1 - m) >= 1) by (nonlinear_arith)
            requires
                f >= 1,
                d1 - m >= 1,
        ;
        assert(num1 >= m);
        assert(num1 / m >= 1) by {
            vstd::arithmetic::div_mod::lemma_div_is_ordered(m, num1, m);
            vstd::arithmetic::div_mod::lemma_div_multiples_vanish(1, m);
            assert(1 * m == m) by (nonlinear_arith);
        };
    }
    if d2 > m {
        if d1 <= m {
            let num2 = f * (d2 - m) + (m - 1);
            assert(f * (d2 - m) >= 1) by (nonlinear_arith)
                requires
                    f >= 1,
                    d2 - m >= 1,
            ;
            vstd::arithmetic::div_mod::lemma_div_pos_is_pos(num2, m);
        } else {
            let num1 = f * (d1 - m) + (m - 1);
            let num2 = f * (d2 - m) + (m - 1);
            assert(num1 <= num2) by (nonlinear_arith)
                requires
                    f >= 1,
                    m >= 1,
                    m < d1 <= d2,
                    num1 == f * (d1 - m) + (m - 1),
                    num2 == f * (d2 - m) + (m - 1),
            ;
            vstd::arithmetic::div_mod::lemma_div_is_ordered(num1, num2, m);
        }
    }
    if d1 == 2 * m {
        let num1 = f * (d1 - m) + (m - 1);
        assert(num1 == f * m + (m - 1)) by (nonlinear_arith)
            requires
                d1 == 2 * m,
                num1 == f * (d1 - m) + (m - 1),
        ;
        assert((m - 1) / m == 0) by {
            vstd::arithmetic::div_mod::lemma_basic_div(m - 1, m);
        };
        assert((m - 1 + f * m) / m == (m - 1) / m + f) by {
            vstd::arithmetic::div_mod::lemma_hoist_over_denominator(m - 1, f, m as nat);
        };
        assert(num1 == m - 1 + f * m) by (nonlinear_arith)
            requires
                num1 == f * m + (m - 1),
        ;
    }
}

/// Past the minimum distance the pull grows strictly with distance whenever
/// the configured force is at least the minimum distance; for a smaller
/// force the integer rounding can hold the value flat over single-unit
/// increases.
pub proof fn lemma_pull_mag_strictly_increasing(conf: PullConf, d1: int, d2: int)
    requires
        conf.wf(),
        conf.force_at_twice_min >= conf.min_distance,
        conf.min_distance < d1 < d2,
    ensures
        spec_pull_mag(conf, d1) < spec_pull_mag(conf, d2),
{
    let m = conf.min_distance as int;
    let f = conf.force_at_twice_min as int;
    let num1 = f * (d1 - m) + (m - 1);
    let num2 = f * (d2 - m) + (m - 1);
    assert(num2 >= num1 + m) by (nonlinear_arith)
        requires
            f >= m >= 1,
            m < d1 < d2,
            num1 == f * (d1 - m) + (m - 1),
            num2 == f * (d2 - m) + (m - 1),
    ;
    assert(num1 / m + 1 == (num1 + 1 * m) / m) by {
        vstd::arithmetic::div_mod::lemma_hoist_over_denominator(num1, 1, m as nat);
    };
    assert(num1 + 1 * m <= num2) by (nonlinear_arith)
        requires
            num2 >= num1 + m,
    ;
    vstd::arithmetic::div_mod::lemma_div_is_ordered(num1 + 1 * m, num2, m);
}

/// Computes the attraction magnitude.
pub fn pull_magnitude(conf: &PullConf, dist: u64) -> (r: u64)
    requires
        conf.wf(),
        dist <= 4_000_000_000,
    ensures
        r as int == spec_pull_mag(*conf, dist as int),
{
    if dist <= conf.min_distance as u64 {
        0
    } else {
        proof {
            assert((conf.force_at_twice_min as int) * ((dist - conf.min_distance as u64) as int)
                <= 4_294_967_295 * 4_000_000_000) by (nonlinear_arith)
                requires
                    1 <= conf.force_at_twice_min <= 4_294_967_295,
                    0 <= (dist - conf.min_distance as u64) as int <= 4_000_000_000,
            ;
        }
        let num = (conf.force_at_twice_min as u128) * ((dist - conf.min_distance as u64) as u128)
            + ((conf.min_distance - 1) as u128);
        let r = num / (conf.min_distance as u128);
        proof {
            let m = conf.min_distance as int;
            let f = conf.force_at_twice_min as int;
            let numi = f * (dist as int - m) + (m - 1);
            assert(numi <= 4_294_967_295 * 4_000_000_000 + m) by (nonlinear_arith)
                requires
                    1 <= f <= 4_294_967_295,
                    m >= 1,
                    m < dist as int <= 4_000_000_000,
                    numi == f * (dist as int - m) + (m - 1),
            ;
            assert(numi / m <= numi) by {
                vstd::arithmetic::div_mod::lemma_div_is_ordered_by_denominator(numi, 1, m);
                vstd::arithmetic::div_mod::lemma_div_basics(numi);
            };
            vstd::arithmetic::div_mod::lemma_div_pos_is_pos(numi, m);
        }
        r as u64
    }
}

/// One signed component of a force vector: the magnitude scaled by this
/// axis's share of the distance, keeping the sign of the displacement.
pub open spec fn spec_scaled_comp(mag: int, delta: int, dist: int) -> int {
    if delta >= 0 {
        mag * delta / dist
    } else {
        -(mag * (-delta) / dist)
    }
}

/// Scaling is odd in the displacement: flipping the displacement flips the
/// component.
pub proof fn lemma_scaled_comp_odd(mag: int, delta: int, dist: int)
    requires
        dist >= 1,
        mag >= 0,
    ensures
        spec_scaled_comp(mag, -delta, dist) == -spec_scaled_comp(mag, delta, dist),
{
    if delta == 0 {
        assert(mag * 0 == 0) by (nonlinear_arith);
        assert(0int / dist == 0) by {
            vstd::arithmetic::div_mod::lemma_basic_div(0, dist);
        };
    }
}

/// The push force that node at `(ax, ay)` receives from the node at
/// `(bx, by)`: directed from the other node toward this one, with the
/// repulsion magnitude of their distance; two coincident nodes exert nothing.
pub open spec fn spec_push_vec(conf: PushConf, ax: int, ay: int, bx: int, by: int) -> (int, int) {
    let dx = ax - bx;
    let dy = ay - by;
    let d2 = dx * dx + dy * dy;
    if d2 == 0 {
        (0, 0)
    } else {
        let dist = sqrt_floor(d2);
        let mag = spec_push_mag(conf, dist);
        (spec_scaled_comp(mag, dx, dist), spec_scaled_comp(mag, dy, dist))
    }
}

/// Push symmetry: the force one node exerts on another is equal in magnitude
/// and opposite in direction to the force it receives back, at any fixed
/// pair of positions.
pub proof fn lemma_push_symmetry(conf: PushConf, ax: int, ay: int, bx: int, by: int)
    requires
        conf.wf(),
    ensures
        spec_push_vec(conf, ax, ay, bx, by).0 == -spec_push_vec(conf, bx, by, ax, ay).0,
        spec_push_vec(conf, ax, ay, bx, by).1 == -spec_push_vec(conf, bx, by, ax, ay).1,
{
    let dx = ax - bx;
    let dy = ay - by;
    let d2 = dx * dx + dy * dy;
    assert((bx - ax) == -dx && (by - ay) == -dy);
    assert((-dx) * (-dx) + (-dy) * (-dy) == d2) by (nonlinear_arith)
        requires
            d2 == dx * dx + dy * dy,
    ;
    if d2 != 0 {
        assert(d2 >= 1) by (nonlinear_arith)
            requires
                d2 == dx * dx + dy * dy,
                d2 != 0,
        ;
        let dist = sqrt_floor(d2);
        lemma_sqrt_floor_bounds(d2);
        let mag = spec_push_mag(conf, dist);
        lemma_push_mag_bounds(conf, dist);
        lemma_scaled_comp_odd(mag, dx, dist);
        lemma_scaled_comp_odd(mag, dy, dist);
    }
}

/// Computes one scaled component, with the displacement's absolute value no
/// larger than the distance and the magnitude bounded, so the result is
/// bounded by the magnitude.
fn scaled_comp(mag: u64, delta: i64, dist: u64) -> (r: i64)
    requires
        dist >= 1,
        mag <= u32::MAX,
        -(dist as int) <= delta as int <= dist as int,
    ensures
        r as int == spec_scaled_comp(mag as int, delta as int, dist as int),
        -(mag as int) <= r as int <= mag as int,
{
    proof {
        assert(mag as int * dist as int <= u32::MAX as int * dist as int) by (nonlinear_arith)
            requires
                mag <= u32::MAX,
                dist >= 1,
        ;
    }
    if delta >= 0 {
        proof {
            assert((mag as int) * (delta as int) <= 0xffff_ffff * 0x8000_0000_0000_0000)
                by (nonlinear_arith)
                requires
                    mag <= 0xffff_ffffu64,
                    0 <= delta as int <= 0x8000_0000_0000_0000,
            ;
        }
        let num = (mag as u128) * (delta as u128);
        let q = num / (dist as u128);
        proof {
            let magi = mag as int;
            let di = dist as int;
            let de = delta as int;
            assert(magi * de <= magi * di) by (nonlinear_arith)
                requires
                    magi >= 0,
                    0 <= de <= di,
            ;
            assert((magi * de) / di <= (magi * di) / di) by {
                vstd::arithmetic::div_mod::lemma_div_is_ordered(magi * de, magi * di, di);
            };
            assert((magi * di) / di == magi) by {
                vstd::arithmetic::div_mod::lemma_div_multiples_vanish(magi, di);
                assert(magi * di == di * magi) by (nonlinear_arith);
            };
            assert(magi * de >= 0) by (nonlinear_arith)
                requires
                    magi >= 0,
                    de >= 0,
            ;
            vstd::arithmetic::div_mod::lemma_div_pos_is_pos(magi * de, di);
        }
        q as i64
    } else {
        let nd = (-(delta as i128)) as u128;
        proof {
            assert((mag as int) * (nd as int) <= 0xffff_ffff * 0x8000_0000_0000_0000)
                by (nonlinear_arith)
                requires
                    mag <= 0xffff_ffffu64,
                    0 <= nd as int <= 0x8000_0000_0000_0000,
            ;
        }
        let num = (mag as u128) * nd;
        let q = num / (dist as u128);
        proof {
            let magi = mag as int;
            let di = dist as int;
            let de = -(delta as int);
            assert(magi * de <= magi * di) by (nonlinear_arith)
                requires
                    magi >= 0,
                    0 <= de <= di,
            ;
            assert((magi * de) / di <= (magi * di) / di) by {
                vstd::arithmetic::div_mod::lemma_div_is_ordered(magi * de, magi * di, di);
            };
            assert((magi * di) / di == magi) by {
                vstd::arithmetic::div_mod::lemma_div_multiples_vanish(magi, di);
                assert(magi * di == di * magi) by (nonlinear_arith);
            };
            assert(magi * de >= 0) by (nonlinear_arith)
                requires
                    magi >= 0,
                    de >= 0,
            ;
            vstd::arithmetic::div_mod::lemma_div_pos_is_pos(magi * de, di);
        }
        -(q as i64)
    }
}

/// Computes the push force the node at `(ax, ay)` receives from the node at
/// `(bx, by)`.
pub fn push_vector(conf: &PushConf, ax: i64, ay: i64, bx: i64, by: i64) -> (r: (i64, i64))
    requires
        conf.wf(),
        -COORD_LIMIT <= ax <= COORD_LIMIT,
        -COORD_LIMIT <= ay <= COORD_LIMIT,
        -COORD_LIMIT <= bx <= COORD_LIMIT,
        -COORD_LIMIT <= by <= COORD_LIMIT,
    ensures
        r.0 as int == spec_push_vec(*conf, ax as int, ay as int, bx as int, by as int).0,
        r.1 as int == spec_push_vec(*conf, ax as int, ay as int, bx as int, by as int).1,
        -(conf.force as int) <= r.0 as int <= conf.force as int,
        -(conf.force as int) <= r.1 as int <= conf.force as int,
{
    let dx = ax - bx;
    let dy = ay - by;
    proof {
        assert(0 <= dx * dx <= 4_000_000_000_000_000_000 && 0 <= dy * dy
            <= 4_000_000_000_000_000_000) by (nonlinear_arith)
            requires
                -2_000_000_000 <= dx <= 2_000_000_000,
                -2_000_000_000 <= dy <= 2_000_000_000,
        ;
    }
    let d2 = (dx * dx) as u64 + (dy * dy) as u64;
    if d2 == 0 {
        (0, 0)
    } else {
        let dist = isqrt(d2);
        let mag = push_magnitude(conf, dist);
        proof {
            lemma_sqrt_floor_bounds(d2 as int);
            lemma_push_mag_bounds(*conf, dist as int);
            assert(dx * dx <= d2 && dy * dy <= d2);
            assert(-(dist as int) <= dx as int <= dist as int) by (nonlinear_arith)
                requires
                    dx * dx <= d2 as int,
                    (dist as int) * (dist as int) <= d2 as int,
                    (d2 as int) < (dist as int + 1) * (dist as int + 1),
                    dist >= 0,
            ;
            assert(-(dist as int) <= dy as int <= dist as int) by (nonlinear_arith)
                requires
                    dy * dy <= d2 as int,
                    (dist as int) * (dist as int) <= d2 as int,
                    (d2 as int) < (dist as int + 1) * (dist as int + 1),
                    dist >= 0,
            ;
        }
        let fx = scaled_comp(mag, dx, dist);
        let fy = scaled_comp(mag, dy, dist);
        (fx, fy)
    }
}

/// The pull force the node at `(ax, ay)` receives along an enabled edge
/// toward `(bx, by)`: nothing for coincident nodes, nothing at or under the
/// minimum distance, and otherwise the pull magnitude (held at `u32::MAX`
/// where the linear growth would pass it) scaled onto the displacement
/// toward the other endpoint.
pub open spec fn spec_pull_vec(conf: PullConf, ax: int, ay: int, bx: int, by: int) -> (int, int) {
    let dx = bx - ax;
    let dy = by - ay;
    let d2 = dx * dx + dy * dy;
    if d2 == 0 {
        (0, 0)
    } else {
        let dist = sqrt_floor(d2);
        let mag_raw = spec_pull_mag(conf, dist);
        if mag_raw == 0 {
            (0, 0)
        } else {
            let mag = if mag_raw > u32::MAX {
                u32::MAX as int
            } else {
                mag_raw
            };
            (spec_scaled_comp(mag, dx, dist), spec_scaled_comp(mag, dy, dist))
        }
    }
}

/// Computes the pull force the node at `(ax, ay)` receives along an enabled
/// edge toward `(bx, by)`.
pub fn pull_vector(conf: &PullConf, ax: i64, ay: i64, bx: i64, by: i64) -> (r: (i64, i64))
    requires
        conf.wf(),
        -COORD_LIMIT <= ax <= COORD_LIMIT,
        -COORD_LIMIT <= ay <= COORD_LIMIT,
        -COORD_LIMIT <= bx <= COORD_LIMIT,
        -COORD_LIMIT <= by <= COORD_LIMIT,
    ensures
        r.0 as int == spec_pull_vec(*conf, ax as int, ay as int, bx as int, by as int).0,
        r.1 as int == spec_pull_vec(*conf, ax as int, ay as int, bx as int, by as int).1,
        -(u32::MAX as int) <= r.0 as int <= u32::MAX as int,
        -(u32::MAX as int) <= r.1 as int <= u32::MAX as int,
{
    let dx = bx - ax;
    let dy = by - ay;
    proof {
        assert(0 <= dx * dx <= 4_000_000_000_000_000_000 && 0 <= dy * dy
            <= 4_000_000_000_000_000_000) by (nonlinear_arith)
            requires
                -2_000_000_000 <= dx <= 2_000_000_000,
                -2_000_000_000 <= dy <= 2_000_000_000,
        ;
    }
    let d2 = (dx * dx) as u64 + (dy * dy) as u64;
    if d2 == 0 {
        (0, 0)
    } else {
        let dist = isqrt(d2);
        let mag_raw = pull_magnitude(conf, dist);
        proof {
            lemma_pull_mag_laws(*conf, dist as int, dist as int);
        }
        if mag_raw == 0 {
            (0, 0)
        } else {
            let mag = if mag_raw > u32::MAX as u64 {
                u32::MAX as u64
            } else {
                mag_raw
            };
            proof {
                lemma_sqrt_floor_bounds(d2 as int);
                assert(dx * dx <= d2 && dy * dy <= d2);
                assert(-(dist as int) <= dx as int <= dist as int) by (nonlinear_arith)
                    requires
                        dx * dx <= d2 as int,
                        (dist as int) * (dist as int) <= d2 as int,
                        (d2 as int) < (dist as int + 1) * (dist as int + 1),
                        dist >= 0,
                ;
                assert(-(dist as int) <= dy as int <= dist as int) by (nonlinear_arith)
                    requires
                        dy * dy <= d2 as int,
                        (dist as int) * (dist as int) <= d2 as int,
                        (d2 as int) < (dist as int + 1) * (dist as int + 1),
                        dist >= 0,
                ;
            }
            let fx = scaled_comp(mag, dx, dist);
            let fy = scaled_comp(mag, dy, dist);
            (fx, fy)
        }
    }
}

/// A value clamped into `[-limit, limit]`.
pub open spec fn spec_clamp(v: int, limit: int) -> int {
    if v > limit {
        limit
    } else if v < -limit {
        -limit
    } else {
        v
    }
}

/// Clamps a value into `[-limit, limit]`.
fn clamp_i64(v: i128, limit: i64) -> (r: i64)
    requires
        limit >= 0,
    ensures
        r as int == spec_clamp(v as int, limit as int),
        -(limit as int) <= r as int <= limit as int,
{
    if v > limit as i128 {
        limit
    } else if v < -(limit as i128) {
        -limit
    } else {
        v as i64
    }
}

/// Sum of the push forces that node `i` receives from the live nodes in the
/// first `k` slots (itself excluded).
pub open spec fn spec_push_sum(
    nodes: Seq<Option<Node>>,
    i: int,
    conf: PushConf,
    k: int,
) -> (int, int)
    decreases k,
{
    if k <= 0 {
        (0, 0)
    } else {
        let rest = spec_push_sum(nodes, i, conf, k - 1);
        let j = k - 1;
        if j != i && 0 <= j < nodes.len() && nodes[j] is Some {
            let a = nodes[i]->Some_0;
            let b = nodes[j]->Some_0;
            let f = spec_push_vec(conf, a.x as int, a.y as int, b.x as int, b.y as int);
            (rest.0 + f.0, rest.1 + f.1)
        } else {
            rest
        }
    }
}

/// Sum of the pull forces that node `i` receives along the enabled live
/// edges among the first `k` slots that touch it, toward each edge's other
/// endpoint.
pub open spec fn spec_pull_sum(
    nodes: Seq<Option<Node>>,
    edges: Seq<Option<Edge>>,
    i: int,
    conf: PullConf,
    k: int,
) -> (int, int)
    decreases k,
{
    if k <= 0 {
        (0, 0)
    } else {
        let rest = spec_pull_sum(nodes, edges, i, conf, k - 1);
        let e = k - 1;
        if 0 <= e < edges.len() && edges[e] is Some && edges[e]->Some_0.enabled && (
        edges[e]->Some_0.from.idx as int == i || edges[e]->Some_0.to.idx as int == i) {
            let other = if edges[e]->Some_0.from.idx as int == i {
                edges[e]->Some_0.to
            } else {
                edges[e]->Some_0.from
            };
            if other.idx < nodes.len() && nodes[other.idx as int] is Some {
                let a = nodes[i]->Some_0;
                let b = nodes[other.idx as int]->Some_0;
                let f = spec_pull_vec(conf, a.x as int, a.y as int, b.x as int, b.y as int);
                (rest.0 + f.0, rest.1 + f.1)
            } else {
                rest
            }
        } else {
            rest
        }
    }
}

/// The whole force on node `i`: all push contributions plus all pull
/// contributions.
pub open spec fn spec_force_on(
    nodes: Seq<Option<Node>>,
    edges: Seq<Option<Edge>>,
    i: int,
    push: PushConf,
    pull: PullConf,
) -> (int, int) {
    let fp = spec_push_sum(nodes, i, push, nodes.len() as int);
    let fl = spec_pull_sum(nodes, edges, i, pull, edges.len() as int);
    (fp.0 + fl.0, fp.1 + fl.1)
}

/// Velocity scaled by the elapsed milliseconds: `v * dt / 1000`, rounded
/// toward zero.
pub open spec fn spec_disp(v: int, dt: int) -> int {
    if v >= 0 {
        v * dt / 1000
    } else {
        -((-v) * dt / 1000)
    }
}

/// Node `i` after one integration step: its force (clamped to the velocity
/// bound) becomes its velocity with unit mass, and its position advances by
/// velocity times elapsed time, clamped to the canvas bounds.
pub open spec fn spec_moved_node(
    nodes: Seq<Option<Node>>,
    edges: Seq<Option<Edge>>,
    i: int,
    push: PushConf,
    pull: PullConf,
    dt: int,
) -> Node {
    let nd = nodes[i]->Some_0;
    let f = spec_force_on(nodes, edges, i, push, pull);
    let vx = spec_clamp(f.0, VEL_LIMIT as int);
    let vy = spec_clamp(f.1, VEL_LIMIT as int);
    Node {
        x: spec_clamp(nd.x + spec_disp(vx, dt), COORD_LIMIT as int) as i64,
        y: spec_clamp(nd.y + spec_disp(vy, dt), COORD_LIMIT as int) as i64,
        vx: vx as i64,
        vy: vy as i64,
        ..nd
    }
}

/// The node slots after one whole layout tick over the first `k` slots, in
/// slot order: each live, unpinned node is integrated against the state left
/// by the nodes before it (the tick updates in place, so later nodes see
/// earlier nodes already moved); pinned and empty slots are left alone.
pub open spec fn spec_tick_nodes(
    nodes: Seq<Option<Node>>,
    edges: Seq<Option<Edge>>,
    push: PushConf,
    pull: PullConf,
    dt: int,
    k: int,
) -> Seq<Option<Node>>
    decreases k,
{
    if k <= 0 {
        nodes
    } else {
        let prev = spec_tick_nodes(nodes, edges, push, pull, dt, k - 1);
        let i = k - 1;
        if 0 <= i < prev.len() && prev[i] is Some && !prev[i]->Some_0.ignore_force {
            prev.update(i, Some(spec_moved_node(prev, edges, i, push, pull, dt)))
        } else {
            prev
        }
    }
}

/// Computes `v * dt_ms / 1000`, rounded toward zero.
fn scaled_disp(v: i64, dt_ms: u64) -> (r: i64)
    requires
        -VEL_LIMIT <= v <= VEL_LIMIT,
        dt_ms <= 1_000_000,
    ensures
        r as int == spec_disp(v as int, dt_ms as int),
        -1_000_000_000 <= r as int <= 1_000_000_000,
{
    proof {
        assert((1_000int * 1_000_000_000) / 1_000 == 1_000_000_000) by {
            vstd::arithmetic::div_mod::lemma_div_multiples_vanish(1_000_000_000int, 1_000int);
        };
        assert(1_000int * 1_000_000_000 == 1_000_000_000_000) by (nonlinear_arith);
    }
    if v >= 0 {
        proof {
            assert(0 <= (v as int) * (dt_ms as int) <= 1_000_000_000_000) by (nonlinear_arith)
                requires
                    0 <= v as int <= 1_000_000,
                    0 <= dt_ms as int <= 1_000_000,
            ;
            vstd::arithmetic::div_mod::lemma_div_pos_is_pos((v as int) * (dt_ms as int), 1_000);
            vstd::arithmetic::div_mod::lemma_div_is_ordered(
                (v as int) * (dt_ms as int),
                1_000_000_000_000,
                1_000,
            );
        }
        let num = (v as u64 as u128) * (dt_ms as u128);
        ((num / 1000) as u64) as i64
    } else {
        let mag = (-(v as i128)) as u128;
        proof {
            assert(0 <= (mag as int) * (dt_ms as int) <= 1_000_000_000_000) by (nonlinear_arith)
                requires
                    0 <= mag as int <= 1_000_000,
                    0 <= dt_ms as int <= 1_000_000,
            ;
            vstd::arithmetic::div_mod::lemma_div_pos_is_pos((mag as int) * (dt_ms as int), 1_000);
            vstd::arithmetic::div_mod::lemma_div_is_ordered(
                (mag as int) * (dt_ms as int),
                1_000_000_000_000,
                1_000,
            );
        }
        let num = mag * (dt_ms as u128);
        -(((num / 1000) as u64) as i64)
    }
}

/// One layout tick: every node not flagged `ignore_force` receives the sum
/// of the push forces from all other nodes and the pull forces along its
/// enabled incident edges, takes that (clamped) as its velocity, and moves
/// by velocity scaled with the elapsed milliseconds, clamped to the canvas
/// bounds. Pinned nodes do not move but still push others. The graph's
/// structure — which nodes and edges are live, the edges themselves, and
/// every node's state, label and pin flag — is untouched.
pub fn update_forces(graph: &mut Graph, push_conf: &PushConf, pull_conf: &PullConf, dt_ms: u64)
    requires
        old(graph).wf(),
        push_conf.wf(),
        pull_conf.wf(),
        dt_ms <= 1_000_000,
    ensures
        final(graph).wf(),
        final(graph).edges@ == old(graph).edges@,
        final(graph).nodes@.len() == old(graph).nodes@.len(),
        forall|i: int| old(graph).node_alive(i) <==> #[trigger] final(graph).node_alive(i),
        forall|i: int| #[trigger] final(graph).node_alive(i) ==> {
            let a = old(graph).node_at(i);
            let b = final(graph).node_at(i);
            &&& b.state == a.state
            &&& b.label == a.label
            &&& b.ignore_force == a.ignore_force
            &&& (a.ignore_force ==> b == a)
        },
        final(graph).nodes@ == spec_tick_nodes(
            old(graph).nodes@,
            old(graph).edges@,
            *push_conf,
            *pull_conf,
            dt_ms as int,
            old(graph).nodes@.len() as int,
        ),
    {
        let n = graph.nodes.len();
        let mut i: usize = 0;
        while i < n
            invariant
                graph.wf(),
                push_conf.wf(),
                pull_conf.wf(),
                dt_ms <= 1_000_000,
                i <= n,
                n == graph.nodes@.len(),
                n == old(graph).nodes@.len(),
                graph.edges@ == old(graph).edges@,
                forall|k: int| old(graph).node_alive(k) <==> #[trigger] graph.node_alive(k),
                forall|k: int| #[trigger] graph.node_alive(k) ==> {
                    let a = old(graph).node_at(k);
                    let b = graph.node_at(k);
                    &&& b.state == a.state
                    &&& b.label == a.label
                    &&& b.ignore_force == a.ignore_force
                    &&& (a.ignore_force ==> b == a)
                },
                graph.nodes@ == spec_tick_nodes(
                    old(graph).nodes@,
                    old(graph).edges@,
                    *push_conf,
                    *pull_conf,
                    dt_ms as int,
                    i as int,
                ),
            decreases n - i,
        {
            let (alive, ignore, x0, y0) = match &graph.nodes[i] {
                Some(nd) => (true, nd.ignore_force, nd.x, nd.y),
                None => (false, true, 0i64, 0i64),
            };
            if alive && !ignore {
                proof {
                    assert(graph.node_alive(i as int));
                    assert(Graph::node_in_bounds(graph.node_at(i as int)));
                }
                let mut fx: i128 = 0;
                let mut fy: i128 = 0;
                // push from every other node
                let mut j: usize = 0;
                while j < n
                    invariant
                        graph.wf(),
                        push_conf.wf(),
                        n == graph.nodes@.len(),
                        j <= n,
                        i < n,
                        graph.node_alive(i as int),
                        x0 == graph.node_at(i as int).x,
                        y0 == graph.node_at(i as int).y,
                        -COORD_LIMIT <= x0 <= COORD_LIMIT,
                        -COORD_LIMIT <= y0 <= COORD_LIMIT,
                        -(j as int) * (u32::MAX as int) <= fx <= (j as int) * (u32::MAX as int),
                        -(j as int) * (u32::MAX as int) <= fy <= (j as int) * (u32::MAX as int),
                        fx as int == spec_push_sum(graph.nodes@, i as int, *push_conf, j as int).0,
                        fy as int == spec_push_sum(graph.nodes@, i as int, *push_conf, j as int).1,
                    decreases n - j,
                {
                    if j != i {
                        let force_part = match &graph.nodes[j] {
                            Some(other) => {
                                proof {
                                    assert(graph.node_alive(j as int));
                                    assert(Graph::node_in_bounds(graph.node_at(j as int)));
                                }
                                push_vector(push_conf, x0, y0, other.x, other.y)
                            },
                            None => (0i64, 0i64),
                        };
                        proof {
                            assert(((j + 1) as int) * (u32::MAX as int) == (j as int) * (
                            u32::MAX as int) + u32::MAX as int) by (nonlinear_arith);
                            assert((j as int) * (u32::MAX as int) <= (n as int) * (
                            u32::MAX as int)) by (nonlinear_arith)
                                requires
                                    0 <= j as int <= n as int,
                            ;
                            assert(spec_push_sum(
                                graph.nodes@,
                                i as int,
                                *push_conf,
                                j as int + 1,
                            ) == (
                                spec_push_sum(graph.nodes@, i as int, *push_conf, j as int).0
                                    + force_part.0 as int,
                                spec_push_sum(graph.nodes@, i as int, *push_conf, j as int).1
                                    + force_part.1 as int,
                            ));
                        }
                        fx = fx + force_part.0 as i128;
                        fy = fy + force_part.1 as i128;
                    } else {
                        proof {
                            assert(((j + 1) as int) * (u32::MAX as int) >= (j as int) * (
                            u32::MAX as int)) by (nonlinear_arith);
                            assert(spec_push_sum(
                                graph.nodes@,
                                i as int,
                                *push_conf,
                                j as int + 1,
                            ) == spec_push_sum(graph.nodes@, i as int, *push_conf, j as int));
                        }
                    }
                    j += 1;
                }
                // pull along enabled incident edges
                let m = graph.edges.len();
                let mut e: usize = 0;
                while e < m
                    invariant
                        graph.wf(),
                        pull_conf.wf(),
                        n == graph.nodes@.len(),
                        m == graph.edges@.len(),
                        i < n,
                        e <= m,
                        graph.node_alive(i as int),
                        x0 == graph.node_at(i as int).x,
                        y0 == graph.node_at(i as int).y,
                        -COORD_LIMIT <= x0 <= COORD_LIMIT,
                        -COORD_LIMIT <= y0 <= COORD_LIMIT,
                        -((n as int) + (e as int)) * (u32::MAX as int) <= fx <= ((n as int) + (
                        e as int)) * (u32::MAX as int),
                        -((n as int) + (e as int)) * (u32::MAX as int) <= fy <= ((n as int) + (
                        e as int)) * (u32::MAX as int),
                        fx as int == spec_push_sum(graph.nodes@, i as int, *push_conf, n as int).0
                            + spec_pull_sum(
                            graph.nodes@,
                            graph.edges@,
                            i as int,
                            *pull_conf,
                            e as int,
                        ).0,
                        fy as int == spec_push_sum(graph.nodes@, i as int, *push_conf, n as int).1
                            + spec_pull_sum(
                            graph.nodes@,
                            graph.edges@,
                            i as int,
                            *pull_conf,
                            e as int,
                        ).1,
                    decreases m - e,
                {
                    let other_end = match &graph.edges[e] {
                        Some(ed) => {
                            if ed.enabled && ed.from.idx == i {
                                Some(ed.to)
                            } else if ed.enabled && ed.to.idx == i {
                                Some(ed.from)
                            } else {
                                None
                            }
                        },
                        None => None,
                    };
                    let force_part = match other_end {
                        Some(nid) => {
                            proof {
                                if graph.edge_alive(e as int) {
                                    assert(graph.has_node(graph.edge_at(e as int).from));
                                    assert(graph.has_node(graph.edge_at(e as int).to));
                                }
                            }
                            match &graph.nodes[nid.idx] {
                                Some(other) => {
                                    proof {
                                        assert(graph.node_alive(nid.idx as int));
                                        assert(Graph::node_in_bounds(graph.node_at(
                                            nid.idx as int,
                                        )));
                                    }
                                    pull_vector(pull_conf, x0, y0, other.x, other.y)
                                },
                                None => (0i64, 0i64),
                            }
                        },
                        None => (0i64, 0i64),
                    };
                    proof {
                        assert(((n + e + 1) as int) * (u32::MAX as int) == ((n + e) as int) * (
                        u32::MAX as int) + u32::MAX as int) by (nonlinear_arith);
                        assert(spec_pull_sum(
                            graph.nodes@,
                            graph.edges@,
                            i as int,
                            *pull_conf,
                            e as int + 1,
                        ) == (
                            spec_pull_sum(
                                graph.nodes@,
                                graph.edges@,
                                i as int,
                                *pull_conf,
                                e as int,
                            ).0 + force_part.0 as int,
                            spec_pull_sum(
                                graph.nodes@,
                                graph.edges@,
                                i as int,
                                *pull_conf,
                                e as int,
                            ).1 + force_part.1 as int,
                        ));
                    }
                    fx = fx + force_part.0 as i128;
                    fy = fy + force_part.1 as i128;
                    e += 1;
                }
                // integrate: force becomes velocity (unit mass), clamped;
                // position advances by velocity scaled with elapsed time.
                let vx = clamp_i64(fx, VEL_LIMIT);
                let vy = clamp_i64(fy, VEL_LIMIT);
                proof {
                    assert(-(VEL_LIMIT as int) * 1_000_000 <= (vx as int) * (dt_ms as int)
                        <= (VEL_LIMIT as int) * 1_000_000) by (nonlinear_arith)
                        requires
                            -(VEL_LIMIT as int) <= vx as int <= VEL_LIMIT as int,
                            0 <= dt_ms as int <= 1_000_000,
                    ;
                    assert(-(VEL_LIMIT as int) * 1_000_000 <= (vy as int) * (dt_ms as int)
                        <= (VEL_LIMIT as int) * 1_000_000) by (nonlinear_arith)
                        requires
                            -(VEL_LIMIT as int) <= vy as int <= VEL_LIMIT as int,
                            0 <= dt_ms as int <= 1_000_000,
                    ;
                }
                let sx = scaled_disp(vx, dt_ms);
                let sy = scaled_disp(vy, dt_ms);
                let nx = clamp_i64((x0 as i128) + (sx as i128), COORD_LIMIT);
                let ny = clamp_i64((y0 as i128) + (sy as i128), COORD_LIMIT);
                let ghost pre = *graph;
                let taken = self_take(graph, i);
                if let Some(mut nd) = taken {
                    nd.x = nx;
                    nd.y = ny;
                    nd.vx = vx;
                    nd.vy = vy;
                    graph.nodes[i] = Some(nd);
                }
                proof {
                    assert(graph.nodes@ =~= pre.nodes@.update(
                        i as int,
                        Some(
                            Node {
                                x: nx,
                                y: ny,
                                vx,
                                vy,
                                ..pre.node_at(i as int)
                            },
                        ),
                    ));
                    assert forall|k: int| old(graph).node_alive(k) <==> #[trigger]
                        graph.node_alive(k) by {
                        if 0 <= k < n as int {
                            if k != i as int {
                                assert(graph.nodes@[k] == pre.nodes@[k]);
                            } else {
                                assert(graph.nodes@[k] is Some);
                                assert(pre.nodes@[k] is Some);
                            }
                            assert(pre.node_alive(k) <==> graph.node_alive(k));
                            assert(old(graph).node_alive(k) <==> pre.node_alive(k));
                        } else {
                            assert(!old(graph).node_alive(k));
                            assert(!graph.node_alive(k));
                        }
                    };
                    assert forall|k: int| #[trigger] graph.node_alive(k) implies {
                        let a = old(graph).node_at(k);
                        let b = graph.node_at(k);
                        &&& b.state == a.state
                        &&& b.label == a.label
                        &&& b.ignore_force == a.ignore_force
                        &&& (a.ignore_force ==> b == a)
                    } by {
                        assert(pre.node_alive(k));
                        if k == i as int {
                            assert(pre.node_at(k).ignore_force == old(graph).node_at(
                                k,
                            ).ignore_force);
                            assert(!old(graph).node_at(k).ignore_force);
                        } else {
                            assert(graph.nodes@[k] == pre.nodes@[k]);
                        }
                    };
                    assert forall|k: int| #[trigger] graph.edge_alive(k) implies graph.has_node(
                        graph.edge_at(k).from,
                    ) && graph.has_node(graph.edge_at(k).to) by {
                        assert(pre.edge_alive(k));
                        assert(pre.has_node(pre.edge_at(k).from));
                        assert(pre.has_node(pre.edge_at(k).to));
                    };
                    assert forall|k: int| #[trigger] graph.node_alive(k) implies
                        Graph::node_in_bounds(graph.node_at(k)) by {
                        if k != i as int {
                            assert(pre.node_alive(k));
                        }
                    };
                    // the write is exactly the tick's integration of this node
                    assert(fx as int == spec_force_on(
                        pre.nodes@,
                        pre.edges@,
                        i as int,
                        *push_conf,
                        *pull_conf,
                    ).0);
                    assert(fy as int == spec_force_on(
                        pre.nodes@,
                        pre.edges@,
                        i as int,
                        *push_conf,
                        *pull_conf,
                    ).1);
                    assert((Node { x: nx, y: ny, vx, vy, ..pre.node_at(i as int) })
                        == spec_moved_node(
                        pre.nodes@,
                        pre.edges@,
                        i as int,
                        *push_conf,
                        *pull_conf,
                        dt_ms as int,
                    ));
                    assert(graph.nodes@ == spec_tick_nodes(
                        old(graph).nodes@,
                        old(graph).edges@,
                        *push_conf,
                        *pull_conf,
                        dt_ms as int,
                        i as int + 1,
                    ));
                }
            } else {
                proof {
                    assert(spec_tick_nodes(
                        old(graph).nodes@,
                        old(graph).edges@,
                        *push_conf,
                        *pull_conf,
                        dt_ms as int,
                        i as int + 1,
                    ) == spec_tick_nodes(
                        old(graph).nodes@,
                        old(graph).edges@,
                        *push_conf,
                        *pull_conf,
                        dt_ms as int,
                        i as int,
                    ));
                }
            }
            i += 1;
        }
    }

/// Takes the node out of slot `i` (a helper for in-place modification).
fn self_take(graph: &mut Graph, i: usize) -> (r: Option<Node>)
    requires
        i < old(graph).nodes@.len(),
    ensures
        r == old(graph).nodes@[i as int],
        final(graph).nodes@ == old(graph).nodes@.update(i as int, None::<Node>),
        final(graph).edges@ == old(graph).edges@,
{
    graph.nodes[i].take()
}

} // verus!
