//! The choice of an engine by its short code.

use vstd::prelude::*;

use super::algorithm::{Algorithm, ExecuteResponse};
use super::ant_colony_optimization::{AntColonyOptimization, Entropy};
use super::branch_and_bound::BranchAndBound;
use super::genetic::Genetic;
use super::simulated_annealing::{Metropolis, SimulatedAnnealing};
use crate::distance::{is_matrix_of, lemma_matrix_unique};
use crate::models::city::City;
use crate::text::{is_same_text, to_uppercase, uppercase_of};

verus! {

/// The engines.
#[derive(Debug, Clone, Copy, PartialEq, Eq, Structural)]
pub enum AlgorithmKind {
    AntColony,
    BranchAndBound,
    Genetic,
    SimulatedAnnealing,
}

/// Why an instance is turned away.
#[derive(Debug, Clone, Copy, PartialEq, Eq, Structural)]
pub enum ConfigError {
    /// A round trip needs two points at least.
    TooFewPoints,
    /// More than 65535 points: the distance matrix of 65536 points has more
    /// entries than a 32-bit machine can address.
    TooManyPoints,
}

/// The engine that a code in capitals names: `ACO`, `BB`, `G` or `SA`.
pub open spec fn kind_named(capitals: Seq<char>) -> Option<AlgorithmKind> {
    if capitals == "ACO"@ {
        Some(AlgorithmKind::AntColony)
    } else if capitals == "BB"@ {
        Some(AlgorithmKind::BranchAndBound)
    } else if capitals == "G"@ {
        Some(AlgorithmKind::Genetic)
    } else if capitals == "SA"@ {
        Some(AlgorithmKind::SimulatedAnnealing)
    } else {
        None
    }
}

/// The engine that a code names, in capitals or not.
pub open spec fn kind_of(code: Seq<char>) -> Option<AlgorithmKind> {
    kind_named(uppercase_of(code))
}

/// What the engine of each kind owes besides a sound response: the exact
/// search and the ant colony report no initial tour, and the exact search
/// starts its tour at point 0; the genetic engine and the annealing report
/// an initial tour.
pub open spec fn is_response_of(response: ExecuteResponse, kind: AlgorithmKind) -> bool {
    match kind {
        AlgorithmKind::AntColony => response.initial_path@.len() == 0,
        AlgorithmKind::BranchAndBound => response.initial_path@.len() == 0
            && response.final_path@[0] == 0,
        AlgorithmKind::Genetic => response.initial_path@.len() > 0,
        AlgorithmKind::SimulatedAnnealing => response.initial_path@.len() > 0,
    }
}

/// The dispatcher.
pub struct AlgorithmStrategy;

impl AlgorithmStrategy {
    /// The engine that `algorithm` names, in capitals or not, if it names
    /// one.
    pub fn parse_code(algorithm: &str) -> (kind: Option<AlgorithmKind>)
        ensures
            kind == kind_of(algorithm@),
    {
        let upper = to_uppercase(algorithm);
        Self::parse_capitals(upper.as_str())
    }

    /// The engine that a code in capitals names, if it names one.
    pub fn parse_capitals(capitals: &str) -> (kind: Option<AlgorithmKind>)
        ensures
            kind == kind_named(capitals@),
    {
        if is_same_text(capitals, "ACO") {
            Some(AlgorithmKind::AntColony)
        } else if is_same_text(capitals, "BB") {
            Some(AlgorithmKind::BranchAndBound)
        } else if is_same_text(capitals, "G") {
            Some(AlgorithmKind::Genetic)
        } else if is_same_text(capitals, "SA") {
            Some(AlgorithmKind::SimulatedAnnealing)
        } else {
            None
        }
    }

    /// Runs the engine that `algorithm` names on `cities`, if it names
    /// one; `None` where it names none.
    pub fn try_execute_algorithm<M: Metropolis, E: Entropy>(
        algorithm: &str,
        cities: &Vec<City>,
        metropolis: M,
        gauge: E,
    ) -> (outcome: Option<Result<ExecuteResponse, ConfigError>>)
        ensures
            outcome is None <==> kind_of(algorithm@) is None,
            match outcome {
                Some(Ok(response)) => 2 <= cities@.len() <= 0xffff && is_response_of(
                    response,
                    kind_of(algorithm@)->0,
                ) && forall|matrix: Seq<u64>|
                    is_matrix_of(matrix, cities@) ==> #[trigger] response.is_sound(
                        matrix,
                        cities@.len(),
                    ),
                Some(Err(ConfigError::TooFewPoints)) => cities@.len() < 2,
                Some(Err(ConfigError::TooManyPoints)) => cities@.len() > 0xffff,
                None => true,
            },
    {
        match Self::parse_code(algorithm) {
            Some(_) => Some(Self::execute_algorithm(algorithm, cities, metropolis, gauge)),
            None => None,
        }
    }

    /// Runs the engine of the given kind on `cities`.
    ///
    /// An instance of fewer than 2 or more than 65535 points is turned
    /// away. Otherwise the response is that of the engine of this kind: it
    /// holds a tour through all points with its length over the distance
    /// matrix of the points, and where it reports an initial tour, the
    /// final one is no longer.
    pub fn execute_kind<M: Metropolis, E: Entropy>(
        kind: AlgorithmKind,
        cities: &Vec<City>,
        metropolis: M,
        gauge: E,
    ) -> (outcome: Result<ExecuteResponse, ConfigError>)
        ensures
            match outcome {
                Ok(response) => 2 <= cities@.len() <= 0xffff && is_response_of(response, kind)
                    && forall|matrix: Seq<u64>|
                    is_matrix_of(matrix, cities@) ==> #[trigger] response.is_sound(
                        matrix,
                        cities@.len(),
                    ),
                Err(ConfigError::TooFewPoints) => cities@.len() < 2,
                Err(ConfigError::TooManyPoints) => cities@.len() > 0xffff,
            },
    {
        if cities.len() < 2 {
            return Err(ConfigError::TooFewPoints);
        }
        if cities.len() > 0xffff {
            return Err(ConfigError::TooManyPoints);
        }
        let ghost distances: Seq<u64>;
        let response = match kind {
            AlgorithmKind::AntColony => {
                let mut engine = AntColonyOptimization::new(cities, gauge);
                proof {
                    distances = engine.distance_matrix@;
                }
                engine.execute()
            },
            AlgorithmKind::BranchAndBound => {
                let mut engine = BranchAndBound::new(cities);
                proof {
                    distances = engine.distance_matrix@;
                }
                engine.execute()
            },
            AlgorithmKind::Genetic => {
                let mut engine = Genetic::new(cities);
                proof {
                    distances = engine.distance_matrix@;
                }
                engine.execute()
            },
            AlgorithmKind::SimulatedAnnealing => {
                let mut engine = SimulatedAnnealing::new(cities, metropolis);
                proof {
                    distances = engine.distance_matrix@;
                }
                engine.execute()
            },
        };
        proof {
            assert forall|matrix: Seq<u64>| is_matrix_of(matrix, cities@) implies #[trigger] response.is_sound(
                matrix,
                cities@.len(),
            ) by {
                lemma_matrix_unique(matrix, distances, cities@);
            }
        }
        Ok(response)
    }

    /// Runs the engine that `algorithm` names on `cities`. The code must
    /// name an engine.
    pub fn execute_algorithm<M: Metropolis, E: Entropy>(
        algorithm: &str,
        cities: &Vec<City>,
        metropolis: M,
        gauge: E,
    ) -> (outcome: Result<ExecuteResponse, ConfigError>)
        requires
            kind_of(algorithm@) is Some,
        ensures
            match outcome {
                Ok(response) => 2 <= cities@.len() <= 0xffff && is_response_of(
                    response,
                    kind_of(algorithm@)->0,
                ) && forall|matrix: Seq<u64>|
                    is_matrix_of(matrix, cities@) ==> #[trigger] response.is_sound(
                        matrix,
                        cities@.len(),
                    ),
                Err(ConfigError::TooFewPoints) => cities@.len() < 2,
                Err(ConfigError::TooManyPoints) => cities@.len() > 0xffff,
            },
    {
        match Self::parse_code(algorithm) {
            Some(kind) => Self::execute_kind(kind, cities, metropolis, gauge),
            None => vstd::pervasive::unreached(),
        }
    }
}

} // verus!
