//! Planar integer geometry over fixed-point coordinates.
//!
//! Positions are in 1e-7 degree units. Distances use an equirectangular
//! model: one degree is taken as a fixed number of metres, so the squared
//! planar distance in coordinate units, scaled by that constant, is compared
//! against radii given in metres. Everything is exact integer arithmetic.

use vstd::prelude::*;

use crate::bathymetry::{position_valid, Position, LAT_E7_MAX, LON_E7_MAX};

verus! {

/// Metres per degree of arc in the planar model.
pub const METERS_PER_DEGREE: u64 = 111_320;

/// Coordinate units per degree.
pub const UNITS_PER_DEGREE: u64 = 10_000_000;

/// Largest radius, in metres, the radius comparison accepts.
pub const RADIUS_M_MAX: u64 = 1_000_000_000;

/// Squared planar distance between two positions, in squared coordinate units.
pub open spec fn sq_dist(a: Position, b: Position) -> int {
    (a.lat_e7 - b.lat_e7) * (a.lat_e7 - b.lat_e7) + (a.lon_e7 - b.lon_e7) * (a.lon_e7
        - b.lon_e7)
}

/// Whether two positions are within `r` metres of one another in the planar
/// model: dist_units * METERS_PER_DEGREE <= r * UNITS_PER_DEGREE, squared.
pub open spec fn within_meters(a: Position, b: Position, r: int) -> bool {
    sq_dist(a, b) * (METERS_PER_DEGREE * METERS_PER_DEGREE) <= r * r * (UNITS_PER_DEGREE
        * UNITS_PER_DEGREE)
}

pub proof fn lemma_mul_le(a: int, b: int, ax: int, bx: int)
    by (nonlinear_arith)
    requires
        0 <= a <= ax,
        0 <= b <= bx,
    ensures
        a * b <= ax * bx,
{
}

proof fn lemma_sq_of_mul(a: int, b: int)
    by (nonlinear_arith)
    ensures
        (a * b) * (a * b) == a * a * (b * b),
{
}

pub proof fn lemma_abs_mul_le(a: int, b: int, ax: int, bx: int)
    by (nonlinear_arith)
    requires
        -ax <= a <= ax,
        -bx <= b <= bx,
        0 <= ax,
        0 <= bx,
    ensures
        -(ax * bx) <= a * b <= ax * bx,
{
}

pub proof fn lemma_sq_le(x: int, c: int)
    by (nonlinear_arith)
    requires
        -c <= x <= c,
    ensures
        0 <= x * x <= c * c,
{
}

/// Bound on `sq_dist` of two valid positions.
pub proof fn lemma_sq_dist_bound(a: Position, b: Position)
    requires
        position_valid(a),
        position_valid(b),
    ensures
        0 <= sq_dist(a, b) <= 16_200_000_000_000_000_000,
{
    lemma_sq_le(a.lat_e7 - b.lat_e7, 2 * LAT_E7_MAX as int);
    lemma_sq_le(a.lon_e7 - b.lon_e7, 2 * LON_E7_MAX as int);
    assert((2 * LAT_E7_MAX as int) * (2 * LAT_E7_MAX as int) == 3_240_000_000_000_000_000)
        by (nonlinear_arith);
    assert((2 * LON_E7_MAX as int) * (2 * LON_E7_MAX as int) == 12_960_000_000_000_000_000)
        by (nonlinear_arith);
}

/// Squared distance, computed exactly.
pub fn sq_dist_i128(a: Position, b: Position) -> (r: i128)
    requires
        position_valid(a),
        position_valid(b),
    ensures
        r == sq_dist(a, b),
        0 <= r,
{
    let dlat: i128 = (a.lat_e7 as i128) - (b.lat_e7 as i128);
    let dlon: i128 = (a.lon_e7 as i128) - (b.lon_e7 as i128);
    proof {
        lemma_sq_le(dlat as int, 2 * LAT_E7_MAX as int);
        lemma_sq_le(dlon as int, 2 * LON_E7_MAX as int);
    }
    dlat * dlat + dlon * dlon
}

/// Whether `a` and `b` lie within `radius_m` metres of one another.
pub fn is_within(a: Position, b: Position, radius_m: u64) -> (r: bool)
    requires
        position_valid(a),
        position_valid(b),
        radius_m <= RADIUS_M_MAX,
    ensures
        r == within_meters(a, b, radius_m as int),
{
    let d2: i128 = sq_dist_i128(a, b);
    proof {
        lemma_mul_le(METERS_PER_DEGREE as int, METERS_PER_DEGREE as int, 200_000, 200_000);
        lemma_mul_le(radius_m as int, UNITS_PER_DEGREE as int, RADIUS_M_MAX as int, 10_000_000);
    }
    let m2: i128 = (METERS_PER_DEGREE as i128) * (METERS_PER_DEGREE as i128);
    let r_units: i128 = (radius_m as i128) * (UNITS_PER_DEGREE as i128);
    proof {
        lemma_sq_dist_bound(a, b);
        lemma_mul_le(d2 as int, m2 as int, 16_200_000_000_000_000_000, 40_000_000_000);
        lemma_sq_le(r_units as int, 10_000_000_000_000_000);
        lemma_sq_of_mul(radius_m as int, UNITS_PER_DEGREE as int);
    }
    d2 * m2 <= r_units * r_units
}

/// Floor square root: r * r <= x < (r + 1) * (r + 1).
pub open spec fn is_floor_sqrt(x: int, r: int) -> bool {
    0 <= r && r * r <= x && x < (r + 1) * (r + 1)
}

/// Integer square root by bisection.
pub fn isqrt_u128(x: u128) -> (r: u128)
    requires
        x < 0x4000_0000_0000_0000_0000_0000_0000_0000,
    ensures
        is_floor_sqrt(x as int, r as int),
{
    let mut lo: u128 = 0;
    let mut hi: u128 = 0x8000_0000_0000_0000;
    proof {
        assert(0x8000_0000_0000_0000u128 * 0x8000_0000_0000_0000u128
            == 0x4000_0000_0000_0000_0000_0000_0000_0000u128) by (bit_vector);
    }
    while lo + 1 < hi
        invariant
            lo < hi <= 0x8000_0000_0000_0000,
            (lo as int) * (lo as int) <= x as int,
            (x as int) < (hi as int) * (hi as int),
        decreases hi - lo,
    {
        let mid: u128 = lo + (hi - lo) / 2;
        proof {
            lemma_mul_le(mid as int, mid as int, 0x8000_0000_0000_0000, 0x8000_0000_0000_0000);
        }
        if mid * mid <= x {
            lo = mid;
        } else {
            hi = mid;
        }
    }
    lo
}

/// The midpoint of two positions, each axis rounded toward negative infinity.
pub open spec fn spec_midpoint(a: Position, b: Position) -> Position {
    Position {
        lat_e7: ((a.lat_e7 + b.lat_e7) / 2) as i64,
        lon_e7: ((a.lon_e7 + b.lon_e7) / 2) as i64,
    }
}

/// Compute the midpoint of two valid positions.
pub fn midpoint(a: Position, b: Position) -> (r: Position)
    requires
        position_valid(a),
        position_valid(b),
    ensures
        r == spec_midpoint(a, b),
        position_valid(r),
{
    let shifted_lat: i128 = (a.lat_e7 as i128 + LAT_E7_MAX as i128) + (b.lat_e7 as i128
        + LAT_E7_MAX as i128);
    let shifted_lon: i128 = (a.lon_e7 as i128 + LON_E7_MAX as i128) + (b.lon_e7 as i128
        + LON_E7_MAX as i128);
    let lat: i64 = (shifted_lat / 2 - LAT_E7_MAX as i128) as i64;
    let lon: i64 = (shifted_lon / 2 - LON_E7_MAX as i128) as i64;
    proof {
        assert(shifted_lat / 2 == (a.lat_e7 + b.lat_e7) / 2 + LAT_E7_MAX);
        assert(shifted_lon / 2 == (a.lon_e7 + b.lon_e7) / 2 + LON_E7_MAX);
    }
    Position { lat_e7: lat, lon_e7: lon }
}

} // verus!
