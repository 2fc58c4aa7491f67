//! Fixed-point great-circle geometry.
//!
//! Latitude and longitude are measured in microdegrees (millionths of a
//! degree), angles in nanoradians (billionths of a radian) and distances
//! in thousandths of a nautical mile.  The great-circle distance between
//! two positions is computed with the Haversine formula, evaluated
//! entirely in integer arithmetic: the sine and arcsine are truncated
//! power series in Horner form, and the square root is the integer
//! square root.  Every executable function returns exactly the value of
//! its specification-level counterpart.

use vstd::prelude::*;

verus! {

use vstd::arithmetic::div_mod::{
    lemma_div_is_ordered,
    lemma_div_is_ordered_by_denominator,
    lemma_div_pos_is_pos,
    lemma_div_by_multiple,
};

/// Scale of fixed-point trigonometric values: 1.0 is represented as 10^9.
pub const SCALE: u64 = 1_000_000_000;

/// pi/2 in nanoradians, rounded to the nearest integer.
pub const HALF_PI_NANO: u64 = 1_570_796_327;

/// pi in nanoradians, rounded to the nearest integer.
pub const PI_NANO: u64 = 3_141_592_654;

/// Nanoradians per microdegree, scaled by 10^6: pi / 180 * 10^9.
pub const NANO_RAD_PER_UDEG_E6: u64 = 17_453_292_519_943;

/// Earth radius in nautical miles, as the Haversine formula uses it.
pub const EARTH_RADIUS_NM: u64 = 3440;

/// For 0 <= a <= amax and 0 <= b <= bmax, the truncated quotient a * b / d
/// lies between 0 and amax * bmax / d.
proof fn lemma_mul_div_bound(a: int, amax: int, b: int, bmax: int, d: int)
    requires
        0 <= a <= amax,
        0 <= b <= bmax,
        0 < d,
    ensures
        0 <= a * b / d <= amax * bmax / d,
{
    assert(a * b <= amax * bmax) by (nonlinear_arith)
        requires 0 <= a <= amax, 0 <= b <= bmax;
    assert(0 <= a * b) by (nonlinear_arith)
        requires 0 <= a, 0 <= b;
    lemma_div_is_ordered(a * b, amax * bmax, d);
    lemma_div_pos_is_pos(a * b, d);
}

/// For 0 <= a and 0 < m <= d, the truncated quotient a * m / d is at most a.
proof fn lemma_mul_div_shrinks(a: int, m: int, d: int)
    requires
        0 <= a,
        0 < m <= d,
    ensures
        0 <= a * m / d <= a,
{
    assert(a * m <= a * d) by (nonlinear_arith)
        requires 0 <= a, m <= d;
    assert(0 <= a * m) by (nonlinear_arith)
        requires 0 <= a, 0 <= m;
    lemma_div_is_ordered(a * m, a * d, d);
    lemma_div_by_multiple(a, d);
    lemma_div_pos_is_pos(a * m, d);
}

/// The integer square root: the unique r with r * r <= n < (r + 1) * (r + 1).
pub open spec fn spec_isqrt(n: int) -> int {
    choose|r: int| 0 <= r && #[trigger] (r * r) <= n < (r + 1) * (r + 1)
}

pub proof fn lemma_isqrt_exists(n: int) -> (r: int)
    requires
        0 <= n,
    ensures
        0 <= r && r * r <= n < (r + 1) * (r + 1),
    decreases n,
{
    if n == 0 {
        0
    } else {
        let p = lemma_isqrt_exists(n - 1);
        if n < (p + 1) * (p + 1) {
            p
        } else {
            assert((p + 1) * (p + 1) <= n);
            assert(n - 1 < (p + 1) * (p + 1));
            assert(n < (p + 2) * (p + 2)) by (nonlinear_arith)
                requires n == (p + 1) * (p + 1), 0 <= p;
            p + 1
        }
    }
}

pub proof fn lemma_isqrt_unique(n: int, r: int)
    requires
        0 <= r,
        r * r <= n < (r + 1) * (r + 1),
    ensures
        spec_isqrt(n) == r,
{
    let s = lemma_isqrt_exists(n);
    assert(spec_isqrt(n) * spec_isqrt(n) <= n < (spec_isqrt(n) + 1) * (spec_isqrt(n) + 1)
        && 0 <= spec_isqrt(n));
    let q = spec_isqrt(n);
    if q < r {
        assert((q + 1) * (q + 1) <= r * r) by (nonlinear_arith)
            requires 0 <= q, q + 1 <= r;
        assert(false);
    }
    if r < q {
        assert((r + 1) * (r + 1) <= q * q) by (nonlinear_arith)
            requires 0 <= r, r + 1 <= q;
        assert(false);
    }
}

/// Integer square root by binary search.
pub fn isqrt(n: u64) -> (r: u64)
    requires
        n <= 1_000_000_000_000_000_000,
    ensures
        r as int == spec_isqrt(n as int),
        r * r <= n,
        r <= 1_000_000_000,
{
    let mut lo: u64 = 0;
    let mut hi: u64 = 1_000_000_001;
    while hi - lo > 1
        invariant
            lo < hi <= 1_000_000_001,
            (lo * lo) as int <= n as int,
            (n as int) < (hi * hi) as int,
        decreases hi - lo,
    {
        let mid = lo + (hi - lo) / 2;
        assert(mid * mid <= 1_000_000_001 * 1_000_000_001) by (nonlinear_arith)
            requires mid <= 1_000_000_001;
        if mid * mid <= n {
            lo = mid;
        } else {
            hi = mid;
        }
    }
    assert(hi == lo + 1);
    proof {
        lemma_isqrt_unique(n as int, lo as int);
    }
    lo
}

/// Nested factor of the sine series in Horner form, for step k counted
/// up to 9: u_k = 1 - x^2 / ((2k)(2k+1)) * u_{k+1}, with all values
/// scaled by SCALE and x2 the scaled square of the angle.
pub open spec fn spec_sin_factor(x2: int, k: int) -> int
    decreases 9 - k,
{
    if k >= 9 {
        SCALE as int
    } else {
        SCALE - (x2 / ((2 * k) * (2 * k + 1)) * spec_sin_factor(x2, k + 1)) / (SCALE as int)
    }
}

/// The sine of an angle in [0, pi/2] given in nanoradians, scaled by SCALE.
pub open spec fn spec_sin_nano(x: int) -> int {
    let x2 = (x * x) / (SCALE as int);
    let s = (x * spec_sin_factor(x2, 1)) / (SCALE as int);
    if s > SCALE {
        SCALE as int
    } else {
        s
    }
}

proof fn lemma_sin_factor_bounds(x2: int, k: int)
    requires
        0 <= x2 <= 2_470_000_000,
        1 <= k <= 9,
    ensures
        0 <= spec_sin_factor(x2, k) <= SCALE,
    decreases 9 - k,
{
    if k < 9 {
        lemma_sin_factor_bounds(x2, k + 1);
        assert(6 <= (2 * k) * (2 * k + 1) <= 342) by (nonlinear_arith)
            requires 1 <= k <= 8;
        let d = (2 * k) * (2 * k + 1);
        let a = x2 / d;
        lemma_div_is_ordered_by_denominator(x2, 6, d);
        lemma_div_is_ordered(x2, 2_470_000_000, 6);
        lemma_div_pos_is_pos(x2, d);
        lemma_mul_div_bound(a, 411_666_666, spec_sin_factor(x2, k + 1), SCALE as int,
            SCALE as int);
        assert(411_666_666 * (SCALE as int) / (SCALE as int) == 411_666_666);
    }
}

fn sin_factor(x2: u64, k: u64) -> (r: u64)
    requires
        x2 <= 2_470_000_000,
        1 <= k <= 9,
    ensures
        r as int == spec_sin_factor(x2 as int, k as int),
        r <= SCALE,
    decreases 9 - k,
{
    proof {
        lemma_sin_factor_bounds(x2 as int, k as int);
    }
    if k >= 9 {
        SCALE
    } else {
        let rest = sin_factor(x2, k + 1);
        proof {
            assert(6 <= (2 * (k as int)) * (2 * (k as int) + 1) <= 342) by (nonlinear_arith)
                requires 1 <= k < 9;
            lemma_div_is_ordered_by_denominator(x2 as int, 6,
                (2 * (k as int)) * (2 * (k as int) + 1));
            lemma_div_is_ordered(x2 as int, 2_470_000_000, 6);
            lemma_mul_div_bound((x2 as int) / ((2 * (k as int)) * (2 * (k as int) + 1)),
                411_666_666, rest as int, SCALE as int, SCALE as int);
            assert(411_666_666 * (SCALE as int) / (SCALE as int) == 411_666_666);
        }
        let d = (2 * k) * (2 * k + 1);
        let a = x2 / d;
        SCALE - a * rest / SCALE
    }
}

/// Sine of an angle in [0, pi/2] nanoradians, scaled by SCALE.
pub fn sin_nano(x: u64) -> (r: u64)
    requires
        x <= HALF_PI_NANO,
    ensures
        r as int == spec_sin_nano(x as int),
        r <= SCALE,
{
    proof {
        assert((x as int) * (x as int) <= 1_570_796_327 * 1_570_796_327) by (nonlinear_arith)
            requires x <= 1_570_796_327;
        lemma_div_is_ordered((x as int) * (x as int), 1_570_796_327int * 1_570_796_327,
            SCALE as int);
        lemma_div_pos_is_pos((x as int) * (x as int), SCALE as int);
    }
    let x2 = x * x / SCALE;
    let f = sin_factor(x2, 1);
    proof {
        lemma_mul_div_bound(x as int, 1_570_796_327, f as int, SCALE as int, SCALE as int);
        assert(1_570_796_327 * (SCALE as int) / (SCALE as int) == 1_570_796_327);
    }
    let s = x * f / SCALE;
    if s > SCALE {
        SCALE
    } else {
        s
    }
}

/// Sine of an angle in [0, pi] nanoradians, scaled by SCALE: angles above
/// pi/2 are reflected, sin x = sin(pi - x).
pub open spec fn spec_sin_half_turn(x: int) -> int {
    if x > HALF_PI_NANO {
        spec_sin_nano(PI_NANO - x)
    } else {
        spec_sin_nano(x)
    }
}

pub fn sin_half_turn(x: u64) -> (r: u64)
    requires
        x <= PI_NANO,
    ensures
        r as int == spec_sin_half_turn(x as int),
        r <= SCALE,
{
    if x > HALF_PI_NANO {
        sin_nano(PI_NANO - x)
    } else {
        sin_nano(x)
    }
}

/// Nested factor of the arcsine series in Horner form, for step k counted
/// up to 26: v_k = 1 + x^2 (2k-1)^2 / ((2k)(2k+1)) * v_{k+1}, scaled by
/// SCALE.
pub open spec fn spec_asin_factor(y2: int, k: int) -> int
    decreases 26 - k,
{
    if k >= 26 {
        SCALE as int
    } else {
        SCALE + (y2 * ((2 * k - 1) * (2 * k - 1)) / ((2 * k) * (2 * k + 1))
            * spec_asin_factor(y2, k + 1)) / (SCALE as int)
    }
}

/// The arcsine of a value in [0, sqrt(1/2)] scaled by SCALE, in nanoradians.
pub open spec fn spec_asin_nano(y: int) -> int {
    let y2 = (y * y) / (SCALE as int);
    (y * spec_asin_factor(y2, 1)) / (SCALE as int)
}

proof fn lemma_asin_factor_bounds(y2: int, k: int)
    requires
        0 <= y2 <= 500_100_000,
        1 <= k <= 26,
    ensures
        SCALE <= spec_asin_factor(y2, k) <= 2_100_000_000,
    decreases 26 - k,
{
    if k < 26 {
        lemma_asin_factor_bounds(y2, k + 1);
        assert(0 < (2 * k - 1) * (2 * k - 1) < (2 * k) * (2 * k + 1) <= 2652)
            by (nonlinear_arith)
            requires 1 <= k <= 25;
        let m = (2 * k - 1) * (2 * k - 1);
        let d = (2 * k) * (2 * k + 1);
        let b = (y2 * m) / d;
        lemma_mul_div_shrinks(y2, m, d);
        assert(y2 * m / d == b);
        let rest = spec_asin_factor(y2, k + 1);
        lemma_mul_div_bound(b, 500_100_000, rest, 2_100_000_000, SCALE as int);
        assert(500_100_000int * 2_100_000_000 / (SCALE as int) == 1_050_210_000);
    }
}

fn asin_factor(y2: u64, k: u64) -> (r: u64)
    requires
        y2 <= 500_100_000,
        1 <= k <= 26,
    ensures
        r as int == spec_asin_factor(y2 as int, k as int),
        SCALE <= r <= 2_100_000_000,
    decreases 26 - k,
{
    proof {
        lemma_asin_factor_bounds(y2 as int, k as int);
    }
    if k >= 26 {
        SCALE
    } else {
        let rest = asin_factor(y2, k + 1);
        proof {
            let ki = k as int;
            assert(0 < (2 * ki - 1) * (2 * ki - 1) <= 2601
                && (2 * ki - 1) * (2 * ki - 1) < (2 * ki) * (2 * ki + 1) <= 2652)
                by (nonlinear_arith)
                requires 1 <= ki <= 25;
            assert(0 <= (y2 as int) * ((2 * ki - 1) * (2 * ki - 1)) <= 500_100_000int * 2601)
                by (nonlinear_arith)
                requires y2 <= 500_100_000, 0 < (2 * ki - 1) * (2 * ki - 1) <= 2601, 0 <= y2;
            lemma_mul_div_shrinks(y2 as int, (2 * ki - 1) * (2 * ki - 1),
                (2 * ki) * (2 * ki + 1));
            lemma_mul_div_bound(
                (y2 as int) * ((2 * ki - 1) * (2 * ki - 1)) / ((2 * ki) * (2 * ki + 1)),
                500_100_000, rest as int, 2_100_000_000, SCALE as int);
            assert(500_100_000int * 2_100_000_000 / (SCALE as int) == 1_050_210_000);
        }
        let m = (2 * k - 1) * (2 * k - 1);
        let d = (2 * k) * (2 * k + 1);
        let b = y2 * m / d;
        SCALE + b * rest / SCALE
    }
}

/// Arcsine of a value in [0, sqrt(1/2)] scaled by SCALE, in nanoradians.
pub fn asin_nano(y: u64) -> (r: u64)
    requires
        y <= 707_106_782,
    ensures
        r as int == spec_asin_nano(y as int),
        r <= 1_485_000_000,
{
    proof {
        assert((y as int) * (y as int) <= 707_106_782 * 707_106_782) by (nonlinear_arith)
            requires y <= 707_106_782;
        lemma_div_is_ordered((y as int) * (y as int), 707_106_782int * 707_106_782, SCALE as int);
        lemma_div_pos_is_pos((y as int) * (y as int), SCALE as int);
    }
    let y2 = y * y / SCALE;
    let f = asin_factor(y2, 1);
    proof {
        lemma_mul_div_bound(y as int, 707_106_782, f as int, 2_100_000_000, SCALE as int);
        assert(707_106_782int * 2_100_000_000 / (SCALE as int) == 1_484_924_242);
    }
    y * f / SCALE
}

/// A geographic position in microdegrees: millionths of a degree of
/// latitude and longitude, signed.
#[derive(Clone, Copy, Debug, PartialEq, Eq, Structural)]
pub struct Position {
    pub lat_udeg: i64,
    pub lon_udeg: i64,
}

impl Position {
    /// Latitude within [-90, 90] degrees and longitude within [-180, 180].
    pub open spec fn wf(self) -> bool {
        -90_000_000 <= self.lat_udeg <= 90_000_000
            && -180_000_000 <= self.lon_udeg <= 180_000_000
    }

    pub fn new(lat_udeg: i64, lon_udeg: i64) -> (p: Position)
        requires
            -90_000_000 <= lat_udeg <= 90_000_000,
            -180_000_000 <= lon_udeg <= 180_000_000,
        ensures
            p == (Position { lat_udeg, lon_udeg }),
            p.wf(),
    {
        Position { lat_udeg, lon_udeg }
    }
}

/// An absolute angular difference in microdegrees, as nanoradians.
pub open spec fn spec_udeg_to_nano(d: int) -> int {
    d * NANO_RAD_PER_UDEG_E6 / 1_000_000_000_000
}

fn udeg_to_nano(d: u64) -> (r: u64)
    requires
        d <= 360_000_000,
    ensures
        r as int == spec_udeg_to_nano(d as int),
        r <= 6_283_185_307,
        d <= 180_000_000 ==> r <= 3_141_592_653,
        d <= 90_000_000 ==> r <= 1_570_796_326,
{
    proof {
        lemma_mul_div_bound(d as int, 360_000_000, NANO_RAD_PER_UDEG_E6 as int,
            NANO_RAD_PER_UDEG_E6 as int, 1_000_000_000_000);
        if d <= 180_000_000 {
            lemma_mul_div_bound(d as int, 180_000_000, NANO_RAD_PER_UDEG_E6 as int,
                NANO_RAD_PER_UDEG_E6 as int, 1_000_000_000_000);
        }
        if d <= 90_000_000 {
            lemma_mul_div_bound(d as int, 90_000_000, NANO_RAD_PER_UDEG_E6 as int,
                NANO_RAD_PER_UDEG_E6 as int, 1_000_000_000_000);
        }
    }
    ((d as u128) * (NANO_RAD_PER_UDEG_E6 as u128) / 1_000_000_000_000) as u64
}

/// The distance between two points on a great circle, in thousandths of a
/// nautical mile: the Haversine formula
/// a = sin^2(dlat/2) + cos(lat1) cos(lat2) sin^2(dlon/2),
/// c = 2 asin(sqrt(a)), distance = R c, with R = 3440 nautical miles,
/// evaluated in fixed point.
pub open spec fn spec_distance_milli_nm(from: Position, to: Position) -> int {
    let dlat_half = spec_udeg_to_nano(abs_int(to.lat_udeg - from.lat_udeg)) / 2;
    let dlon_half = spec_udeg_to_nano(abs_int(to.lon_udeg - from.lon_udeg)) / 2;
    let s1 = spec_sin_nano(dlat_half);
    let s2 = spec_sin_half_turn(dlon_half);
    let c1 = spec_sin_nano(HALF_PI_NANO - spec_udeg_to_nano(abs_int(from.lat_udeg as int)));
    let c2 = spec_sin_nano(HALF_PI_NANO - spec_udeg_to_nano(abs_int(to.lat_udeg as int)));
    let a0 = (s1 * s1) / (SCALE as int)
        + ((((c1 * c2) / (SCALE as int)) * s2) / (SCALE as int)) * s2 / (SCALE as int);
    let a = if a0 > SCALE {
        SCALE as int
    } else {
        a0
    };
    let c = if a <= SCALE / 2 {
        2 * spec_asin_nano(spec_isqrt(a * SCALE))
    } else {
        2 * (HALF_PI_NANO - spec_asin_nano(spec_isqrt((SCALE - a) * SCALE)))
    };
    c * EARTH_RADIUS_NM / 1_000_000
}

/// The absolute value of an integer.
pub open spec fn abs_int(x: int) -> int {
    if x < 0 {
        -x
    } else {
        x
    }
}

/// The absolute difference of two bounded i64 values, as u64.
fn abs_diff(x: i64, y: i64) -> (r: u64)
    requires
        -180_000_000 <= x <= 180_000_000,
        -180_000_000 <= y <= 180_000_000,
    ensures
        r as int == abs_int(x - y),
        r <= 360_000_000,
{
    if x >= y {
        (x - y) as u64
    } else {
        (y - x) as u64
    }
}

/// Great-circle distance between two positions, in thousandths of a
/// nautical mile.
pub fn distance_milli_nm(from: Position, to: Position) -> (r: u64)
    requires
        from.wf(),
        to.wf(),
    ensures
        r as int == spec_distance_milli_nm(from, to),
        r <= 10_807_079,
{
    let dlat_half = udeg_to_nano(abs_diff(to.lat_udeg, from.lat_udeg)) / 2;
    let dlon_half = udeg_to_nano(abs_diff(to.lon_udeg, from.lon_udeg)) / 2;
    let s1 = sin_nano(dlat_half);
    let s2 = sin_half_turn(dlon_half);
    let alat1 = if from.lat_udeg >= 0 {
        from.lat_udeg as u64
    } else {
        (-from.lat_udeg) as u64
    };
    let alat2 = if to.lat_udeg >= 0 {
        to.lat_udeg as u64
    } else {
        (-to.lat_udeg) as u64
    };
    let c1 = sin_nano(HALF_PI_NANO - udeg_to_nano(alat1));
    let c2 = sin_nano(HALF_PI_NANO - udeg_to_nano(alat2));
    proof {
        lemma_mul_div_bound(s1 as int, SCALE as int, s1 as int, SCALE as int, SCALE as int);
        lemma_mul_div_bound(c1 as int, SCALE as int, c2 as int, SCALE as int, SCALE as int);
        assert((SCALE as int) * (SCALE as int) / (SCALE as int) == SCALE as int);
    }
    let t1 = s1 * s1 / SCALE;
    let p1 = c1 * c2 / SCALE;
    proof {
        lemma_mul_div_bound(p1 as int, SCALE as int, s2 as int, SCALE as int, SCALE as int);
    }
    let p2 = p1 * s2 / SCALE;
    proof {
        lemma_mul_div_bound(p2 as int, SCALE as int, s2 as int, SCALE as int, SCALE as int);
    }
    let t2 = p2 * s2 / SCALE;
    let a0 = t1 + t2;
    let a = if a0 > SCALE {
        SCALE
    } else {
        a0
    };
    let c: u64;
    if a <= SCALE / 2 {
        let root = isqrt(a * SCALE);
        proof {
            if root > 707_106_782 {
                assert(707_106_783 * 707_106_783 <= (root as int) * (root as int))
                    by (nonlinear_arith)
                    requires 707_106_783 <= root as int;
                assert(false);
            }
        }
        c = 2 * asin_nano(root);
    } else {
        let root = isqrt((SCALE - a) * SCALE);
        proof {
            if root > 707_106_782 {
                assert(707_106_783 * 707_106_783 <= (root as int) * (root as int))
                    by (nonlinear_arith)
                    requires 707_106_783 <= root as int;
                assert(false);
            }
        }
        c = 2 * (HALF_PI_NANO - asin_nano(root));
    }
    proof {
        lemma_mul_div_bound(c as int, 3_141_592_654, EARTH_RADIUS_NM as int,
            EARTH_RADIUS_NM as int, 1_000_000);
        assert(3_141_592_654int * 3440 / 1_000_000 == 10_807_078);
    }
    c * EARTH_RADIUS_NM / 1_000_000
}

/// The great-circle distance is symmetric: swapping departure and arrival
/// leaves it unchanged.
pub proof fn lemma_distance_symmetric(p1: Position, p2: Position)
    ensures
        spec_distance_milli_nm(p1, p2) == spec_distance_milli_nm(p2, p1),
{
    assert(abs_int(p2.lat_udeg - p1.lat_udeg) == abs_int(p1.lat_udeg - p2.lat_udeg));
    assert(abs_int(p2.lon_udeg - p1.lon_udeg) == abs_int(p1.lon_udeg - p2.lon_udeg));
    let c1 = spec_sin_nano(HALF_PI_NANO - spec_udeg_to_nano(abs_int(p1.lat_udeg as int)));
    let c2 = spec_sin_nano(HALF_PI_NANO - spec_udeg_to_nano(abs_int(p2.lat_udeg as int)));
    assert(c1 * c2 == c2 * c1);
}

} // verus!
