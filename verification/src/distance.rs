//! Great-circle distance between two coordinates.
//!
//! The haversine formula on a spherical Earth, evaluated entirely in
//! fixed-point integer arithmetic: the result is a total, deterministic
//! function of the two coordinates and the sphere radius, stated by
//! `spec_distance_milli_miles` and proved symmetric and zero on equal
//! coordinates.

use vstd::prelude::*;
use crate::coord::Coord;
use crate::fixmath::{
    FIX_ONE, PI_NANO, HALF_PI_NANO, spec_sin, spec_cos, spec_asin, spec_isqrt, fix_sin, fix_cos,
    fix_asin, isqrt, lemma_mul_div_bound,
};

verus! {

/// Largest sphere radius the distance accepts, in metres.
pub const RADIUS_LIMIT_M: u64 = 1_000_000_000;

/// Mean Earth radius in metres, the default sphere.
pub const EARTH_RADIUS_M: u64 = 6_371_000;

/// No edge is ever longer than this, in thousandths of a mile; it is the
/// half circumference of the largest accepted sphere, rounded up.
pub const EDGE_DIST_MAX_MILLI: u64 = 2_000_000_000;

/// The non-negative difference of two integers.
pub open spec fn abs_diff(a: int, b: int) -> int {
    if a >= b {
        a - b
    } else {
        b - a
    }
}

/// Half of an angle given in microdegrees, converted to nano-radians.
pub open spec fn spec_half_angle_nano(dmicro: int) -> int {
    (dmicro * (PI_NANO as int)) / 360_000_000
}

/// A latitude magnitude in microdegrees, converted to nano-radians.
pub open spec fn spec_lat_rad_nano(lat_abs_micro: int) -> int {
    (lat_abs_micro * (PI_NANO as int)) / 180_000_000
}

/// The haversine distance between two coordinates on a sphere of the given
/// radius, in thousandths of a mile, in fixed-point arithmetic.
pub open spec fn spec_distance_milli_miles(radius_m: int, a: Coord, b: Coord) -> int {
    let s1 = spec_sin(spec_half_angle_nano(abs_diff(a.lat_micro as int, b.lat_micro as int)));
    let s2 = spec_sin(spec_half_angle_nano(abs_diff(a.lon_micro as int, b.lon_micro as int)));
    let c1 = spec_cos(spec_lat_rad_nano(abs_diff(a.lat_micro as int, 0)));
    let c2 = spec_cos(spec_lat_rad_nano(abs_diff(b.lat_micro as int, 0)));
    let t1 = (s1 * s1) / (FIX_ONE as int);
    let t2 = (((c1 * c2) / (FIX_ONE as int)) * ((s2 * s2) / (FIX_ONE as int))) / (FIX_ONE as int);
    let hav = if t1 + t2 > FIX_ONE as int {
        FIX_ONE as int
    } else {
        t1 + t2
    };
    let root = spec_isqrt(hav * (FIX_ONE as int));
    let central = 2 * spec_asin(root);
    (central * radius_m) / 1_609_344_000
}

/// Computes the great-circle distance between two coordinates on a sphere
/// of the given radius, in thousandths of a mile.
pub fn geodesic_distance_milli_miles(radius_m: u64, a: &Coord, b: &Coord) -> (d: u64)
    requires
        a.wf(),
        b.wf(),
        1 <= radius_m <= RADIUS_LIMIT_M,
    ensures
        d == spec_distance_milli_miles(radius_m as int, *a, *b),
        d <= EDGE_DIST_MAX_MILLI,
{
    let dlat_micro: u64 = if a.lat_micro >= b.lat_micro {
        (a.lat_micro - b.lat_micro) as u64
    } else {
        (b.lat_micro - a.lat_micro) as u64
    };
    let dlon_micro: u64 = if a.lon_micro >= b.lon_micro {
        (a.lon_micro - b.lon_micro) as u64
    } else {
        (b.lon_micro - a.lon_micro) as u64
    };
    let alat_micro: u64 = if a.lat_micro >= 0 {
        a.lat_micro as u64
    } else {
        (-a.lat_micro) as u64
    };
    let blat_micro: u64 = if b.lat_micro >= 0 {
        b.lat_micro as u64
    } else {
        (-b.lat_micro) as u64
    };
    proof {
        lemma_mul_div_bound(dlat_micro as int, PI_NANO as int, 180_000_000, PI_NANO as int,
            360_000_000);
        lemma_mul_div_bound(dlon_micro as int, PI_NANO as int, 360_000_000, PI_NANO as int,
            360_000_000);
        lemma_mul_div_bound(alat_micro as int, PI_NANO as int, 90_000_000, PI_NANO as int,
            180_000_000);
        lemma_mul_div_bound(blat_micro as int, PI_NANO as int, 90_000_000, PI_NANO as int,
            180_000_000);
    }
    let hdlat: u64 = ((dlat_micro as u128 * PI_NANO as u128) / 360_000_000) as u64;
    let hdlon: u64 = ((dlon_micro as u128 * PI_NANO as u128) / 360_000_000) as u64;
    let rlat1: u64 = ((alat_micro as u128 * PI_NANO as u128) / 180_000_000) as u64;
    let rlat2: u64 = ((blat_micro as u128 * PI_NANO as u128) / 180_000_000) as u64;
    let s1: u64 = fix_sin(hdlat);
    let s2: u64 = fix_sin(hdlon);
    let c1: u64 = fix_cos(rlat1);
    let c2: u64 = fix_cos(rlat2);
    let one: u128 = FIX_ONE as u128;
    proof {
        lemma_mul_div_bound(s1 as int, s1 as int, FIX_ONE as int, FIX_ONE as int, one as int);
        lemma_mul_div_bound(c1 as int, c2 as int, FIX_ONE as int, FIX_ONE as int, one as int);
        lemma_mul_div_bound(s2 as int, s2 as int, FIX_ONE as int, FIX_ONE as int, one as int);
    }
    let t1: u128 = (s1 as u128 * s1 as u128) / one;
    let cc: u128 = (c1 as u128 * c2 as u128) / one;
    let ss: u128 = (s2 as u128 * s2 as u128) / one;
    proof {
        lemma_mul_div_bound(cc as int, ss as int, FIX_ONE as int, FIX_ONE as int, one as int);
    }
    let t2: u128 = (cc * ss) / one;
    let hav: u128 = if t1 + t2 > one {
        one
    } else {
        t1 + t2
    };
    proof {
        lemma_mul_div_bound(hav as int, one as int, FIX_ONE as int, FIX_ONE as int, 1);
    }
    let root128: u128 = isqrt(hav * one);
    proof {
        assert(root128 <= FIX_ONE) by (nonlinear_arith)
            requires
                root128 * root128 <= hav * one,
                hav <= FIX_ONE,
                one == FIX_ONE,
                FIX_ONE == 1_000_000_000,
                0 <= root128,
            ;
    }
    let root: u64 = root128 as u64;
    let half_central: u64 = fix_asin(root);
    let central: u64 = 2 * half_central;
    proof {
        lemma_mul_div_bound(central as int, radius_m as int, PI_NANO as int, RADIUS_LIMIT_M as int,
            1_609_344_000);
    }
    ((central as u128 * radius_m as u128) / 1_609_344_000) as u64
}

/// The great-circle distance is symmetric in its two coordinates.
pub proof fn lemma_distance_symmetric(radius_m: int, a: Coord, b: Coord)
    ensures
        spec_distance_milli_miles(radius_m, a, b) == spec_distance_milli_miles(radius_m, b, a),
{
    let c1 = spec_cos(spec_lat_rad_nano(abs_diff(a.lat_micro as int, 0)));
    let c2 = spec_cos(spec_lat_rad_nano(abs_diff(b.lat_micro as int, 0)));
    assert(c1 * c2 == c2 * c1);
}

/// The great-circle distance from a coordinate to itself is zero.
pub proof fn lemma_distance_zero(radius_m: int, a: Coord)
    requires
        0 <= radius_m,
    ensures
        spec_distance_milli_miles(radius_m, a, a) == 0,
{
    assert(abs_diff(a.lat_micro as int, a.lat_micro as int) == 0);
    assert(spec_half_angle_nano(0) == 0);
    assert(spec_sin(0) == 0);
    let c1 = spec_cos(spec_lat_rad_nano(abs_diff(a.lat_micro as int, 0)));
    let z: int = 0;
    assert((z * z) / (FIX_ONE as int) == 0);
    assert(((c1 * c1) / (FIX_ONE as int)) * ((z * z) / (FIX_ONE as int)) == 0);
    assert(spec_isqrt(z * (FIX_ONE as int)) == 0);
    assert(spec_asin(0) == 0);
    assert((2 * z * radius_m) / 1_609_344_000 == 0);
}

} // verus!
