//! What every engine hands back, and what every engine promises of it.

use std::time::Duration;
use std::time::Instant;
use vstd::prelude::*;

use crate::distance::{is_distance_matrix, is_matrix_of};
use crate::length::tour_length;
use crate::models::city::City;
use crate::tour::is_tour;

verus! {

#[verifier::external_type_specification]
#[verifier::external_body]
pub struct ExInstant(std::time::Instant);

/// `Duration::clone`: a `Duration` is a plain value, and its copy equals it.
pub assume_specification[ <Duration as Clone>::clone ](duration: &Duration) -> (copy: Duration)
    ensures
        copy == *duration,
;

/// `Instant::now`: the current reading of the monotonic clock. Nothing is
/// claimed of it.
#[verifier::external_body]
pub(crate) fn clock_now() -> (start: Instant) {
    Instant::now()
}

/// `Instant::elapsed`: the time gone by since `start` was read. Nothing is
/// claimed of it.
#[verifier::external_body]
pub(crate) fn clock_elapsed(start: &Instant) -> (elapsed: Duration) {
    start.elapsed()
}

/// The outcome of one run of an engine.
#[derive(Clone)]
pub struct ExecuteResponse {
    pub initial_path: Vec<u16>,
    pub final_path: Vec<u16>,
    pub distance: u64,
    pub total_time: Duration,
    pub metadata_info: String,
}

impl ExecuteResponse {
    pub fn new(
        initial_path: Vec<u16>,
        final_path: Vec<u16>,
        distance: u64,
        total_time: Duration,
        metadata_info: String,
    ) -> (response: Self)
        ensures
            response.initial_path == initial_path,
            response.final_path == final_path,
            response.distance == distance,
            response.total_time == total_time,
            response.metadata_info == metadata_info,
    {
        ExecuteResponse { initial_path, final_path, distance, total_time, metadata_info }
    }

    /// The tour the engine started from; empty where it reports none.
    pub fn get_initial_path(&self) -> (path: &Vec<u16>)
        ensures
            *path == self.initial_path,
    {
        &self.initial_path
    }

    /// The best tour the engine found.
    pub fn get_final_path(&self) -> (path: &Vec<u16>)
        ensures
            *path == self.final_path,
    {
        &self.final_path
    }

    /// The length of the final tour, in parts of a coordinate unit.
    pub fn get_distance(&self) -> (distance: &u64)
        ensures
            *distance == self.distance,
    {
        &self.distance
    }

    /// How long the run took.
    pub fn get_total_time(&self) -> (total_time: &Duration)
        ensures
            *total_time == self.total_time,
    {
        &self.total_time
    }

    /// What the engine has to say about the run.
    pub fn get_metadata_info(&self) -> (metadata_info: &String)
        ensures
            *metadata_info == self.metadata_info,
    {
        &self.metadata_info
    }

    /// The response reports a tour through all `n` points with its true
    /// length, and an initial tour, if it reports one, that is no shorter.
    pub open spec fn is_sound(&self, matrix: Seq<u64>, n: nat) -> bool {
        &&& is_tour(self.final_path@, n)
        &&& self.distance == tour_length(self.final_path@, matrix, n)
        &&& self.initial_path@.len() > 0 ==> {
            &&& is_tour(self.initial_path@, n)
            &&& self.distance <= tour_length(self.initial_path@, matrix, n)
        }
    }
}

/// A search engine over one instance.
pub trait Algorithm {
    /// The points of the instance.
    spec fn instance(&self) -> Seq<City>;

    /// The pairwise distances the engine works with, row after row.
    spec fn distances(&self) -> Seq<u64>;

    /// The engine is set up for its instance.
    spec fn ready(&self) -> bool;

    /// Runs the search to its end. The final tour visits every point once
    /// and the reported length is its length; where an initial tour is
    /// reported, the final one is no longer.
    fn execute(&mut self) -> (response: ExecuteResponse)
        requires
            old(self).ready(),
        ensures
            final(self).instance() == old(self).instance(),
            final(self).distances() == old(self).distances(),
            response.is_sound(old(self).distances(), old(self).instance().len()),
    ;
}

/// What `ready` means for every engine: between 2 and 65535 points, and
/// their distance matrix.
pub open spec fn is_instance(cities: Seq<City>, matrix: Seq<u64>) -> bool {
    &&& 2 <= cities.len() <= 0xffff
    &&& is_distance_matrix(matrix, cities.len())
    &&& is_matrix_of(matrix, cities)
}

} // verus!
