//! A single depth sounding: a position on the earth plus a depth below datum.

use vstd::prelude::*;

verus! {

/// Latitude bound in 1e-7 degree units (90 degrees).
pub const LAT_E7_MAX: i64 = 900_000_000;
/// Longitude bound in 1e-7 degree units (180 degrees).
pub const LON_E7_MAX: i64 = 1_800_000_000;

/// A position: latitude and longitude in units of 1e-7 degree.
#[derive(Clone, Copy, Debug, PartialEq, Eq, Structural)]
pub struct Position {
    pub lat_e7: i64,
    pub lon_e7: i64,
}

/// Whether a position lies within the legal latitude/longitude ranges.
pub open spec fn position_valid(p: Position) -> bool {
    -LAT_E7_MAX <= p.lat_e7 <= LAT_E7_MAX && -LON_E7_MAX <= p.lon_e7 <= LON_E7_MAX
}

/// One recorded depth sounding. Immutable; equality is by value over all
/// three fields. Duplicate positions are legal.
#[derive(Clone, Copy, Debug, PartialEq, Eq, Structural)]
pub struct Bathymetry {
    /// Latitude in 1e-7 degree units.
    pub lat_e7: i64,
    /// Longitude in 1e-7 degree units.
    pub lon_e7: i64,
    /// Depth below datum in millimetres; positive is below the surface.
    pub depth_mm: i64,
}

impl Bathymetry {
    /// Validity of a sounding: position in range, depth not negative
    /// (negative depths are filtered out before reaching the engine).
    pub open spec fn valid(self) -> bool {
        position_valid(self.spec_position()) && 0 <= self.depth_mm
    }

    pub open spec fn spec_position(self) -> Position {
        Position { lat_e7: self.lat_e7, lon_e7: self.lon_e7 }
    }

    /// Build a sounding from fixed-point parts.
    pub fn new(lat_e7: i64, lon_e7: i64, depth_mm: i64) -> (r: Self)
        requires
            -LAT_E7_MAX <= lat_e7 <= LAT_E7_MAX,
            -LON_E7_MAX <= lon_e7 <= LON_E7_MAX,
            0 <= depth_mm,
        ensures
            r == (Bathymetry { lat_e7, lon_e7, depth_mm }),
            r.valid(),
    {
        Bathymetry { lat_e7, lon_e7, depth_mm }
    }

    /// The position of this sounding, without its depth.
    pub fn position(&self) -> (r: Position)
        ensures
            r == self.spec_position(),
    {
        Position { lat_e7: self.lat_e7, lon_e7: self.lon_e7 }
    }
}

/// Validity of every sounding in a sequence.
pub open spec fn all_valid(s: Seq<Bathymetry>) -> bool {
    forall|i: int| 0 <= i < s.len() ==> #[trigger] s[i].valid()
}

} // verus!
