//! A point to visit.

use vstd::prelude::*;

use super::coordinates::Coordinates;
use super::uf::UF;

verus! {

/// A point of the instance: its index in the point list, the unit it
/// belongs to, and where it lies.
#[derive(Debug, Clone, Copy)]
pub struct City {
    id: u16,
    uf: UF,
    coordinates: Coordinates,
}

impl City {
    pub fn new(id: u16, uf: UF, coordinates: Coordinates) -> (city: Self)
        ensures
            city.get_id() == id,
            city.unit() == uf,
            city.position() == coordinates,
    {
        City { id, uf, coordinates }
    }

    pub closed spec fn spec_id(&self) -> u16 {
        self.id
    }

    /// The unit the point belongs to.
    pub closed spec fn unit(&self) -> UF {
        self.uf
    }

    /// Where the point lies.
    pub closed spec fn position(&self) -> Coordinates {
        self.coordinates
    }

    #[verifier::when_used_as_spec(spec_id)]
    pub fn get_id(&self) -> (id: u16)
        ensures
            id == self.get_id(),
    {
        self.id
    }

    pub fn get_coordinates(&self) -> (coordinates: &Coordinates)
        ensures
            *coordinates == self.position(),
    {
        &self.coordinates
    }

    pub fn get_uf(&self) -> (uf: &UF)
        ensures
            *uf == self.unit(),
    {
        &self.uf
    }
}

} // verus!
