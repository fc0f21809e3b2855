//! Solvers for the 0/1 knapsack problem, in construction and decision form.
//!
//! `model` holds the data and the mathematical model that every contract is
//! stated over; `solver` the common interface and the strategy selector;
//! one module per strategy; `laws` and `bounds` the general properties.
pub mod approx_pruning;
pub mod bounds;
pub mod dynamic_cost;
pub mod dynamic_weight;
pub mod ftpas;
pub mod greedy;
pub mod ioutils;
pub mod laws;
pub mod model;
pub mod naive;
pub mod pruning;
pub mod redux;
pub mod solver;
pub mod table;
pub mod tabusearch;
pub mod utils;
