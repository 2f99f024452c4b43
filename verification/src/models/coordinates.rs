//! A point of the plane.

use vstd::prelude::*;

verus! {

/// How many coordinate units make one degree, where the coordinates are
/// degrees of latitude and longitude.
pub const UNITS_PER_DEGREE: u64 = 1_000_000;

/// A planar position in whole units, millionths of a degree where the pair
/// is a latitude and a longitude. The engines read the pair as Cartesian
/// coordinates.
#[derive(Debug, Clone, Copy)]
pub struct Coordinates {
    latitude: i32,
    longitude: i32,
}

impl Coordinates {
    pub fn new(latitude: i32, longitude: i32) -> (coordinates: Self)
        ensures
            coordinates.get_latitude() == latitude,
            coordinates.get_longitude() == longitude,
    {
        Coordinates { latitude, longitude }
    }

    #[verifier::when_used_as_spec(spec_latitude)]
    pub fn get_latitude(&self) -> (latitude: i32)
        ensures
            latitude == self.get_latitude(),
    {
        self.latitude
    }

    #[verifier::when_used_as_spec(spec_longitude)]
    pub fn get_longitude(&self) -> (longitude: i32)
        ensures
            longitude == self.get_longitude(),
    {
        self.longitude
    }

    pub closed spec fn spec_latitude(&self) -> i32 {
        self.latitude
    }

    pub closed spec fn spec_longitude(&self) -> i32 {
        self.longitude
    }

    /// The pair as `[latitude, longitude]`.
    pub fn get_as_array(&self) -> (pair: [i32; 2])
        ensures
            pair@ == seq![self.get_latitude(), self.get_longitude()],
    {
        [self.latitude, self.longitude]
    }
}

} // verus!
