use loadchain::coord::Coord;
use loadchain::distance::{geodesic_distance_milli_miles, EARTH_RADIUS_M};
use loadchain::fixmath::{fix_asin, fix_cos, fix_sin, isqrt, FIX_ONE, HALF_PI_NANO, PI_NANO};
use loadchain::search::{net_profit_milli, travel_secs, EngineConfig};

fn c(lat_micro: i64, lon_micro: i64) -> Coord {
    Coord { lat_micro, lon_micro }
}

#[test]
fn isqrt_exact_values() {
    assert_eq!(isqrt(0), 0);
    assert_eq!(isqrt(1), 1);
    assert_eq!(isqrt(3), 1);
    assert_eq!(isqrt(4), 2);
    assert_eq!(isqrt(999_999_999_999_999_999), 999_999_999);
    assert_eq!(isqrt(1_000_000_000_000_000_000), 1_000_000_000);
}

#[test]
fn sin_cos_asin_anchor_points() {
    assert_eq!(fix_sin(0), 0);
    assert_eq!(fix_cos(0), FIX_ONE);
    assert_eq!(fix_asin(0), 0);
    assert_eq!(fix_asin(FIX_ONE), HALF_PI_NANO);
    // sin of a right angle is one to within the series truncation
    let s = fix_sin(HALF_PI_NANO);
    assert!(s >= FIX_ONE - 10_000 && s <= FIX_ONE);
    // cos of a right angle is zero to within the series truncation
    let co = fix_cos(HALF_PI_NANO);
    assert!(co <= 30_000);
    // sine is folded symmetrically around the right angle
    assert_eq!(fix_sin(PI_NANO), fix_sin(0));
    assert_eq!(fix_sin(PI_NANO - 100), fix_sin(100));
}

#[test]
fn distance_one_degree_of_longitude_at_equator() {
    // one degree of longitude on the equator is about 69.09 miles
    let d = geodesic_distance_milli_miles(EARTH_RADIUS_M, &c(0, 0), &c(0, 1_000_000));
    assert_eq!(d, 69_093);
}

#[test]
fn distance_symmetry_on_a_real_pair() {
    let sf = c(37_774_929, -122_419_416);
    let la = c(34_052_234, -118_243_685);
    let d1 = geodesic_distance_milli_miles(EARTH_RADIUS_M, &sf, &la);
    let d2 = geodesic_distance_milli_miles(EARTH_RADIUS_M, &la, &sf);
    assert_eq!(d1, d2);
    // about 347 miles between the two cities
    assert_eq!(d1, 347_422);
}

#[test]
fn distance_zero_on_equal_coordinates() {
    let sf = c(37_774_929, -122_419_416);
    assert_eq!(geodesic_distance_milli_miles(EARTH_RADIUS_M, &sf, &sf), 0);
    assert_eq!(geodesic_distance_milli_miles(EARTH_RADIUS_M, &c(0, 0), &c(0, 0)), 0);
}

#[test]
fn distance_scales_with_radius() {
    let a = c(0, 0);
    let b = c(0, 1_000_000);
    let d_half = geodesic_distance_milli_miles(EARTH_RADIUS_M / 2, &a, &b);
    let d_full = geodesic_distance_milli_miles(EARTH_RADIUS_M, &a, &b);
    assert!(d_half < d_full);
    assert!((2 * d_half as i64 - d_full as i64).abs() <= 1);
}

#[test]
fn travel_time_of_the_one_degree_edge() {
    // 69.093 miles at 55 miles per hour is 4522 whole seconds
    let cfg = EngineConfig::stock();
    assert_eq!(travel_secs(&cfg, 69_093), 4_522);
    assert_eq!(travel_secs(&cfg, 0), 0);
}

#[test]
fn net_profit_of_the_one_degree_edge() {
    let cfg = EngineConfig::stock();
    // 100 earned minus 69.093 miles of fuel at 0.400 per mile
    assert_eq!(net_profit_milli(&cfg, 100, 69_093), 72_363);
    // a payout smaller than the fuel cost scores negative
    assert_eq!(net_profit_milli(&cfg, 5, 69_093), -22_637);
    assert_eq!(net_profit_milli(&cfg, 0, 0), 0);
}

#[test]
fn coordinate_keys_separate_locations() {
    let a = c(0, 0);
    let b = c(0, 1);
    let d = c(1, 0);
    assert_ne!(a.key(), b.key());
    assert_ne!(a.key(), d.key());
    assert_ne!(b.key(), d.key());
    assert_eq!(a.key(), c(0, 0).key());
}
