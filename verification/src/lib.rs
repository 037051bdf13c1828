//! Verified kernel of a fire-evacuation simulation: a stochastic fire-spread
//! cellular automaton, a nearest-burning-cell index, an influence model that
//! scores candidate moves, and a game-theoretic movement resolver with
//! Bush-Mosteller strategy adaptation.
//!
//! All real-valued quantities (probabilities, weights, rewards, curve values)
//! are carried as fixed-point integers with six decimal places ("micro"
//! units), so that every arithmetic step has an exact, machine-checked
//! contract.

pub mod config;
pub mod curves;
pub mod escape;
pub mod evacuee;
pub mod fire;
pub mod fixed;
pub mod frontier;
pub mod influence;
pub mod misc;
pub mod rng;
pub mod state;
pub mod strategy;
