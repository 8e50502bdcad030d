//! Geographic coordinates as integer microdegrees.
//!
//! A location is identified by its coordinate, and two coordinates name the
//! same location exactly when they are equal; there is no tolerance or
//! clustering. Latitude and longitude are stored in millionths of a degree,
//! which quantizes the raw degree values but keeps every comparison and
//! every distance computation in exact integer arithmetic.

use vstd::prelude::*;

verus! {

/// Largest legal latitude, in microdegrees (90 degrees).
pub const LAT_LIMIT_MICRO: i64 = 90_000_000;

/// Largest legal longitude, in microdegrees (180 degrees).
pub const LON_LIMIT_MICRO: i64 = 180_000_000;

/// A (latitude, longitude) pair in integer microdegrees.
#[derive(Clone, Copy, Debug, PartialEq, Eq, Structural)]
pub struct Coord {
    pub lat_micro: i64,
    pub lon_micro: i64,
}

impl Coord {
    /// A coordinate is well formed when both components are within the
    /// usual geographic ranges.
    pub open spec fn wf(self) -> bool {
        &&& -LAT_LIMIT_MICRO <= self.lat_micro <= LAT_LIMIT_MICRO
        &&& -LON_LIMIT_MICRO <= self.lon_micro <= LON_LIMIT_MICRO
    }

    /// The packed map key of a coordinate, as unbounded arithmetic.
    pub open spec fn key_int(self) -> int {
        (self.lat_micro + LAT_LIMIT_MICRO) * (2 * LON_LIMIT_MICRO + 1) + (self.lon_micro
            + LON_LIMIT_MICRO)
    }

    /// The packed map key of a well-formed coordinate.
    pub open spec fn spec_key(self) -> u64 {
        self.key_int() as u64
    }

    /// Packs the coordinate into a single integer, usable as a hash-map key.
    /// Distinct well-formed coordinates get distinct keys.
    pub fn key(&self) -> (k: u64)
        requires
            self.wf(),
        ensures
            k == self.spec_key(),
    {
        proof {
            lemma_key_int_bounds(*self);
        }
        let lat_off: i128 = (self.lat_micro + LAT_LIMIT_MICRO) as i128;
        let lon_off: i128 = (self.lon_micro + LON_LIMIT_MICRO) as i128;
        let w: i128 = (2 * LON_LIMIT_MICRO + 1) as i128;
        (lat_off * w + lon_off) as u64
    }
}

/// The packed key of a well-formed coordinate is non-negative and well
/// below `u64::MAX`, so the narrowing in `spec_key` never truncates.
pub proof fn lemma_key_int_bounds(a: Coord)
    requires
        a.wf(),
    ensures
        0 <= a.key_int() < 0x8000_0000_0000_0000,
{
    let w: int = 2 * LON_LIMIT_MICRO + 1;
    let la: int = a.lat_micro + LAT_LIMIT_MICRO;
    let oa: int = a.lon_micro + LON_LIMIT_MICRO;
    assert(0 <= la * w + oa < 0x8000_0000_0000_0000) by (nonlinear_arith)
        requires
            0 <= la <= 180_000_000,
            0 <= oa < w,
            w == 360_000_001,
        ;
}

/// The packed key determines the coordinate: packing is injective on
/// well-formed coordinates.
pub proof fn lemma_key_injective(a: Coord, b: Coord)
    requires
        a.wf(),
        b.wf(),
        a.spec_key() == b.spec_key(),
    ensures
        a == b,
{
    lemma_key_int_bounds(a);
    lemma_key_int_bounds(b);
    let w: int = 2 * LON_LIMIT_MICRO + 1;
    let la: int = a.lat_micro + LAT_LIMIT_MICRO;
    let lb: int = b.lat_micro + LAT_LIMIT_MICRO;
    let oa: int = a.lon_micro + LON_LIMIT_MICRO;
    let ob: int = b.lon_micro + LON_LIMIT_MICRO;
    assert(la * w + oa == lb * w + ob);
    assert(la == lb && oa == ob) by (nonlinear_arith)
        requires
            la * w + oa == lb * w + ob,
            0 <= oa < w,
            0 <= ob < w,
            0 <= la,
            0 <= lb,
        ;
}

} // verus!
