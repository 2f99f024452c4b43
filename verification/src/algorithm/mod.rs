pub mod algorithm;
pub mod algorithm_strategy;
pub mod ant_colony_optimization;
pub mod branch_and_bound;
pub mod chromossome;
pub mod genetic;
pub mod simulated_annealing;
pub mod two_opt;
