//! Search for short round trips through a fixed set of planar points.
//!
//! Four engines look for a short tour: an exact search by branch and bound,
//! an ant colony, a genetic engine and simulated annealing. Each returns a
//! tour through all points with its length, and each is proved to do so.
//!
//! All quantities are whole numbers. Coordinates are counted in a unit of
//! the caller's choice. Lengths keep a fraction: they are counted in parts
//! of that unit, 1024 to the unit, and the distance between two points is
//! their Euclidean distance in the plane, rounded down to a whole part.
//! Pheromone levels and rates are fixed-point numbers. What the annealing
//! and the ant colony need of real arithmetic, the chance of accepting a
//! longer tour and the entropy of the pheromone, they ask of the caller,
//! through the traits `Metropolis` and `Entropy`; the engines are proved
//! for every answer.
//!
//! Random draws come from the `rand` crate. Wherever a function draws, a
//! companion that takes the outcome of the draw as an argument states
//! exactly what is done with it.
//!
//! The three engines that search by chance keep, as ghost state, the
//! lengths of the tours that they have built, so that their contracts can
//! say that none of those is shorter than the tour returned.

pub mod algorithm;
pub mod chance;
pub mod distance;
pub mod greedy;
pub mod length;
pub mod models;
pub mod moves;
pub mod neighbours;
pub mod select;
pub mod temperature;
pub mod text;
pub mod tour;
