//! Fixed-point geographic primitives.
//!
//! Coordinates are held in microdegrees (degrees times one million),
//! distances in whole millimeters and bearings in millidegrees. The
//! transcendental spherical formulas (geodesic distance, initial bearing,
//! great-circle interpolation) are floating-point work that the caller
//! performs with its geodesy collaborator; their results enter this crate as
//! the plain integer values below and are validated on the way in.
//! Non-finite values are unrepresentable in this model.

use vstd::prelude::*;

verus! {

/// Largest legal latitude, in microdegrees (the north pole).
pub const LAT_LIMIT_UDEG: i64 = 90_000_000;

/// Largest legal longitude, in microdegrees (the antimeridian).
pub const LNG_LIMIT_UDEG: i64 = 180_000_000;

/// One full turn, in millidegrees.
pub const MDEG_FULL_TURN: u32 = 360_000;

/// A point on earth: latitude and longitude in microdegrees.
#[derive(Clone, Copy, Debug, PartialEq, Eq, Structural)]
pub struct Coordinate {
    pub lat_udeg: i64,
    pub lng_udeg: i64,
}

impl Coordinate {
    /// Both components lie in their legal ranges.
    pub open spec fn wf(self) -> bool {
        &&& -LAT_LIMIT_UDEG <= self.lat_udeg <= LAT_LIMIT_UDEG
        &&& -LNG_LIMIT_UDEG <= self.lng_udeg <= LNG_LIMIT_UDEG
    }

    /// Validating constructor: accepts exactly the in-range coordinates.
    pub fn new(lat_udeg: i64, lng_udeg: i64) -> (r: Option<Coordinate>)
        ensures
            r is Some <==> (Coordinate { lat_udeg, lng_udeg }).wf(),
            r is Some ==> r->Some_0 == (Coordinate { lat_udeg, lng_udeg }),
    {
        if -LAT_LIMIT_UDEG <= lat_udeg && lat_udeg <= LAT_LIMIT_UDEG
            && -LNG_LIMIT_UDEG <= lng_udeg && lng_udeg <= LNG_LIMIT_UDEG
        {
            Some(Coordinate { lat_udeg, lng_udeg })
        } else {
            None
        }
    }

    /// Runtime range check, mirroring `wf`.
    pub fn in_range(&self) -> (r: bool)
        ensures
            r == self.wf(),
    {
        -LAT_LIMIT_UDEG <= self.lat_udeg && self.lat_udeg <= LAT_LIMIT_UDEG
            && -LNG_LIMIT_UDEG <= self.lng_udeg && self.lng_udeg <= LNG_LIMIT_UDEG
    }
}

/// A sampled track location plus a facing direction: the bearing is in
/// millidegrees clockwise from north, defined for every viewpoint.
#[derive(Clone, Copy, Debug, PartialEq, Eq, Structural)]
pub struct OrientedViewpoint {
    pub coord: Coordinate,
    pub bearing_mdeg: u32,
}

impl OrientedViewpoint {
    /// The coordinate is in range and the bearing is inside one full turn.
    pub open spec fn wf(self) -> bool {
        &&& self.coord.wf()
        &&& self.bearing_mdeg < MDEG_FULL_TURN
    }
}

} // verus!
