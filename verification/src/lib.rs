//! A library for designing a transit network under a budget: it picks which
//! station-to-station tracks to build, which train lines to run, their
//! schedule style and train counts, so that the demand-weighted expected
//! travel time is as small as possible while the construction and operating
//! cost stays within a fixed budget.
//!
//! The search is heuristic: a baseline network is mutated move by move, each
//! candidate is scored by a flow simulation, and a metaheuristic (tabu search
//! or simulated annealing) decides which candidate to adopt next.

pub mod baseline;
pub mod codec;
pub mod evaluate;
pub mod heap;
pub mod metaheuristic;
pub mod problem;
pub mod rng;
pub mod solver;
pub mod tracks;
pub mod working;
