//! Fixed-point arithmetic helpers for the great-circle distance.
//!
//! Angles are held in nano-radians (a scale of one thousand million per
//! radian) and the trigonometric functions are truncated power series
//! evaluated in exact integer arithmetic. Every function here is a total,
//! deterministic function of its arguments, mirrored one-for-one by a
//! specification function, so that the distance built on top of them is
//! itself a pinned-down mathematical function of the coordinates.

use vstd::prelude::*;
use vstd::arithmetic::div_mod::lemma_div_is_ordered;
use vstd::arithmetic::mul::lemma_mul_upper_bound;

verus! {

/// The fixed-point scale: this many units stand for the real number one
/// (or, for angles, for one radian).
pub const FIX_ONE: u64 = 1_000_000_000;

/// Pi at the fixed-point scale.
pub const PI_NANO: u64 = 3_141_592_654;

/// Pi halves at the fixed-point scale; exactly half of `PI_NANO`.
pub const HALF_PI_NANO: u64 = 1_570_796_327;

/// A product of two non-negative bounded factors is bounded by the product
/// of the bounds, and a quotient by a positive divisor keeps that order.
pub proof fn lemma_mul_div_bound(a: int, b: int, ca: int, cb: int, d: int)
    requires
        0 <= a <= ca,
        0 <= b <= cb,
        0 < d,
    ensures
        0 <= a * b <= ca * cb,
        0 <= (a * b) / d <= (ca * cb) / d,
{
    lemma_mul_upper_bound(a, ca, b, cb);
    assert(0 <= a * b) by (nonlinear_arith)
        requires
            0 <= a,
            0 <= b,
        ;
    lemma_div_is_ordered(a * b, ca * cb, d);
    lemma_div_is_ordered(0, a * b, d);
}

/// The integer square root, defined by unrolling: it steps up by one
/// exactly when the next square still fits under `n`.
pub open spec fn spec_isqrt(n: int) -> int
    decreases n,
{
    if n <= 0 {
        0
    } else {
        let p = spec_isqrt(n - 1);
        if (p + 1) * (p + 1) <= n {
            p + 1
        } else {
            p
        }
    }
}

/// `spec_isqrt(n)` is the largest integer whose square is at most `n`.
pub proof fn lemma_isqrt_bounds(n: int)
    requires
        0 <= n,
    ensures
        0 <= spec_isqrt(n),
        spec_isqrt(n) * spec_isqrt(n) <= n,
        n < (spec_isqrt(n) + 1) * (spec_isqrt(n) + 1),
    decreases n,
{
    if n == 0 {
        assert(spec_isqrt(0) == 0);
    } else {
        lemma_isqrt_bounds(n - 1);
        let p = spec_isqrt(n - 1);
        if (p + 1) * (p + 1) <= n {
            assert(spec_isqrt(n) == p + 1);
            assert(n < ((p + 1) + 1) * ((p + 1) + 1)) by (nonlinear_arith)
                requires
                    (n - 1) < (p + 1) * (p + 1),
                    0 <= p,
                ;
            assert(((p + 1) + 1) * ((p + 1) + 1) == (spec_isqrt(n) + 1) * (spec_isqrt(n) + 1));
        } else {
            assert(spec_isqrt(n) == p);
            assert(p * p <= n);
        }
    }
}

/// Any integer between consecutive squares is the integer square root.
pub proof fn lemma_isqrt_unique(n: int, r: int)
    requires
        0 <= n,
        0 <= r,
        r * r <= n,
        n < (r + 1) * (r + 1),
    ensures
        r == spec_isqrt(n),
{
    lemma_isqrt_bounds(n);
    let s = spec_isqrt(n);
    if r < s {
        assert((r + 1) * (r + 1) <= s * s) by (nonlinear_arith)
            requires
                r + 1 <= s,
                0 <= r,
            ;
    }
    if s < r {
        assert((s + 1) * (s + 1) <= r * r) by (nonlinear_arith)
            requires
                s + 1 <= r,
                0 <= s,
            ;
    }
}

/// Computes the integer square root by binary search.
pub fn isqrt(n: u128) -> (r: u128)
    requires
        n < 0x1_000_000_000_000_000_000_000_000,
    ensures
        r == spec_isqrt(n as int),
        r * r <= n,
        n < (r + 1) * (r + 1),
{
    let mut lo: u128 = 0;
    let mut hi: u128 = 0x1_000_000_000_000;
    assert(0x1_000_000_000_000u128 * 0x1_000_000_000_000u128
        == 0x1_000_000_000_000_000_000_000_000u128) by (nonlinear_arith);
    while lo + 1 < hi
        invariant
            lo < hi,
            hi <= 0x1_000_000_000_000,
            lo * lo <= n,
            n < hi * hi,
        decreases hi - lo,
    {
        let mid: u128 = lo + (hi - lo) / 2;
        proof {
            lemma_mul_upper_bound(mid as int, 0x1_000_000_000_000, mid as int, 0x1_000_000_000_000);
        }
        if mid * mid <= n {
            lo = mid;
        } else {
            hi = mid;
        }
    }
    proof {
        lemma_isqrt_unique(n as int, lo as int);
    }
    lo
}

/// The sine power series on the first quadrant, truncated after the ninth
/// power, clamped into the unit interval.
pub open spec fn spec_sin_poly(x: int) -> int {
    let sq = (x * x) / (FIX_ONE as int);
    let p3 = (sq * x) / (FIX_ONE as int);
    let p5 = (p3 * sq) / (FIX_ONE as int);
    let p7 = (p5 * sq) / (FIX_ONE as int);
    let p9 = (p7 * sq) / (FIX_ONE as int);
    let pos = x + p5 / 120 + p9 / 362880;
    let neg = p3 / 6 + p7 / 5040;
    let r = if pos >= neg {
        pos - neg
    } else {
        0
    };
    if r > FIX_ONE as int {
        FIX_ONE as int
    } else {
        r
    }
}

/// Sine of an angle in nano-radians between zero and pi, folded into the
/// first quadrant before the series is applied.
pub open spec fn spec_sin(x: int) -> int {
    if x > HALF_PI_NANO as int {
        spec_sin_poly(PI_NANO as int - x)
    } else {
        spec_sin_poly(x)
    }
}

/// The cosine power series on the first quadrant, truncated after the
/// eighth power, clamped into the unit interval.
pub open spec fn spec_cos(x: int) -> int {
    let sq = (x * x) / (FIX_ONE as int);
    let p4 = (sq * sq) / (FIX_ONE as int);
    let p6 = (p4 * sq) / (FIX_ONE as int);
    let p8 = (p6 * sq) / (FIX_ONE as int);
    let pos = FIX_ONE as int + p4 / 24 + p8 / 40320;
    let neg = sq / 2 + p6 / 720;
    let r = if pos >= neg {
        pos - neg
    } else {
        0
    };
    if r > FIX_ONE as int {
        FIX_ONE as int
    } else {
        r
    }
}

/// The arcsine power series, truncated after the eleventh power, clamped
/// at a right angle. Sound for arguments up to about seven tenths of one;
/// `spec_asin` only feeds it such arguments.
pub open spec fn spec_asin_poly(x: int) -> int {
    let sq = (x * x) / (FIX_ONE as int);
    let p3 = (sq * x) / (FIX_ONE as int);
    let p5 = (p3 * sq) / (FIX_ONE as int);
    let p7 = (p5 * sq) / (FIX_ONE as int);
    let p9 = (p7 * sq) / (FIX_ONE as int);
    let p11 = (p9 * sq) / (FIX_ONE as int);
    let r = x + p3 / 6 + (3 * p5) / 40 + (15 * p7) / 336 + (105 * p9) / 3456 + (945 * p11)
        / 42240;
    if r > HALF_PI_NANO as int {
        HALF_PI_NANO as int
    } else {
        r
    }
}

/// Arcsine on the unit interval. Above the square root of one half it is
/// reflected through the identity `asin x == pi/2 - asin(sqrt(1 - x*x))`
/// so that the series argument stays small.
pub open spec fn spec_asin(x: int) -> int {
    if 2 * x * x > (FIX_ONE as int) * (FIX_ONE as int) {
        let y = spec_isqrt((FIX_ONE as int) * (FIX_ONE as int) - x * x);
        let p = spec_asin_poly(y as int);
        if p > HALF_PI_NANO as int {
            0
        } else {
            HALF_PI_NANO as int - p
        }
    } else {
        spec_asin_poly(x)
    }
}

/// Computes `spec_sin` on angles up to pi.
pub fn fix_sin(x: u64) -> (r: u64)
    requires
        x <= PI_NANO,
    ensures
        r == spec_sin(x as int),
        r <= FIX_ONE,
{
    let xr: u64 = if x > HALF_PI_NANO {
        PI_NANO - x
    } else {
        x
    };
    let xi: u128 = xr as u128;
    let one: u128 = FIX_ONE as u128;
    proof {
        lemma_mul_div_bound(xi as int, xi as int, 1_570_796_327, 1_570_796_327, one as int);
    }
    let sq: u128 = xi * xi / one;
    proof {
        lemma_mul_div_bound(sq as int, xi as int, 2_470_000_000, 1_570_796_327, one as int);
    }
    let p3: u128 = sq * xi / one;
    proof {
        lemma_mul_div_bound(p3 as int, sq as int, 3_900_000_000, 2_470_000_000, one as int);
    }
    let p5: u128 = p3 * sq / one;
    proof {
        lemma_mul_div_bound(p5 as int, sq as int, 9_700_000_000, 2_470_000_000, one as int);
    }
    let p7: u128 = p5 * sq / one;
    proof {
        lemma_mul_div_bound(p7 as int, sq as int, 24_000_000_000, 2_470_000_000, one as int);
    }
    let p9: u128 = p7 * sq / one;
    let pos: u128 = xi + p5 / 120 + p9 / 362880;
    let neg: u128 = p3 / 6 + p7 / 5040;
    let r128: u128 = if pos >= neg {
        pos - neg
    } else {
        0
    };
    let rc: u128 = if r128 > one {
        one
    } else {
        r128
    };
    rc as u64
}

/// Computes `spec_cos` on angles up to pi halves.
pub fn fix_cos(x: u64) -> (r: u64)
    requires
        x <= HALF_PI_NANO,
    ensures
        r == spec_cos(x as int),
        r <= FIX_ONE,
{
    let xi: u128 = x as u128;
    let one: u128 = FIX_ONE as u128;
    proof {
        lemma_mul_div_bound(xi as int, xi as int, 1_570_796_327, 1_570_796_327, one as int);
    }
    let sq: u128 = xi * xi / one;
    proof {
        lemma_mul_div_bound(sq as int, sq as int, 2_470_000_000, 2_470_000_000, one as int);
    }
    let p4: u128 = sq * sq / one;
    proof {
        lemma_mul_div_bound(p4 as int, sq as int, 6_200_000_000, 2_470_000_000, one as int);
    }
    let p6: u128 = p4 * sq / one;
    proof {
        lemma_mul_div_bound(p6 as int, sq as int, 15_400_000_000, 2_470_000_000, one as int);
    }
    let p8: u128 = p6 * sq / one;
    let pos: u128 = one + p4 / 24 + p8 / 40320;
    let neg: u128 = sq / 2 + p6 / 720;
    let r128: u128 = if pos >= neg {
        pos - neg
    } else {
        0
    };
    let rc: u128 = if r128 > one {
        one
    } else {
        r128
    };
    rc as u64
}

/// Computes `spec_asin_poly` on arguments up to about seven tenths of one.
fn asin_poly(x: u64) -> (r: u64)
    requires
        x <= 710_000_000,
    ensures
        r == spec_asin_poly(x as int),
        r <= HALF_PI_NANO,
{
    let xi: u128 = x as u128;
    let one: u128 = FIX_ONE as u128;
    proof {
        lemma_mul_div_bound(xi as int, xi as int, 710_000_000, 710_000_000, one as int);
    }
    let sq: u128 = xi * xi / one;
    proof {
        lemma_mul_div_bound(sq as int, xi as int, 505_000_000, 710_000_000, one as int);
    }
    let p3: u128 = sq * xi / one;
    proof {
        lemma_mul_div_bound(p3 as int, sq as int, 359_000_000, 505_000_000, one as int);
    }
    let p5: u128 = p3 * sq / one;
    proof {
        lemma_mul_div_bound(p5 as int, sq as int, 182_000_000, 505_000_000, one as int);
    }
    let p7: u128 = p5 * sq / one;
    proof {
        lemma_mul_div_bound(p7 as int, sq as int, 92_000_000, 505_000_000, one as int);
    }
    let p9: u128 = p7 * sq / one;
    proof {
        lemma_mul_div_bound(p9 as int, sq as int, 47_000_000, 505_000_000, one as int);
    }
    let p11: u128 = p9 * sq / one;
    let r128: u128 = xi + p3 / 6 + (3 * p5) / 40 + (15 * p7) / 336 + (105 * p9) / 3456 + (945
        * p11) / 42240;
    let rc: u128 = if r128 > HALF_PI_NANO as u128 {
        HALF_PI_NANO as u128
    } else {
        r128
    };
    rc as u64
}

/// Computes `spec_asin` on the unit interval.
pub fn fix_asin(x: u64) -> (r: u64)
    requires
        x <= FIX_ONE,
    ensures
        r == spec_asin(x as int),
        r <= HALF_PI_NANO,
{
    let xi: u128 = x as u128;
    let one: u128 = FIX_ONE as u128;
    proof {
        lemma_mul_div_bound(xi as int, xi as int, one as int, one as int, one as int);
    }
    if 2 * (xi * xi) > one * one {
        let y128: u128 = isqrt(one * one - xi * xi);
        proof {
            assert(y128 * y128 <= one * one - xi * xi);
            assert(y128 <= 710_000_000) by (nonlinear_arith)
                requires
                    y128 * y128 <= one * one - xi * xi,
                    2 * (xi * xi) > one * one,
                    one == 1_000_000_000,
                    0 <= y128,
                ;
        }
        let y: u64 = y128 as u64;
        let p: u64 = asin_poly(y);
        proof {
            assert(xi * xi == (x as int) * (x as int));
            assert(2 * ((x as int) * (x as int)) == 2 * (x as int) * (x as int))
                by (nonlinear_arith);
            assert(y128 == spec_isqrt(
                (FIX_ONE as int) * (FIX_ONE as int) - (x as int) * (x as int),
            ));
            assert(p == spec_asin_poly(y128 as int));
        }
        if p > HALF_PI_NANO {
            0
        } else {
            HALF_PI_NANO - p
        }
    } else {
        proof {
            assert(xi <= 710_000_000) by (nonlinear_arith)
                requires
                    2 * (xi * xi) <= one * one,
                    one == 1_000_000_000,
                    0 <= xi,
                ;
            assert(xi * xi == (x as int) * (x as int));
            assert(2 * ((x as int) * (x as int)) == 2 * (x as int) * (x as int))
                by (nonlinear_arith);
        }
        asin_poly(x)
    }
}

} // verus!
