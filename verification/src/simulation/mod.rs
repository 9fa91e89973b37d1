//! Helpers around a simulation run: the termination predicates that stop a
//! run, the seeded or unseeded random source the stochastic adversaries
//! draw from, and the data shaping for recorded output.

pub mod random;
pub mod recorder;
pub mod threshold;
