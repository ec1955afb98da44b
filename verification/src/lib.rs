//! Household power consumption as a stream of scheduled appliance runs.
//!
//! Every quantity is a whole number: times and durations are seconds counted
//! from the start of the simulation, power draws are watts.

pub mod alternatives;
pub mod iter;
pub mod name;
pub mod plant;
pub mod queue;
pub mod random;
pub mod range;
pub mod request;
pub mod requests;
pub mod run;
pub mod usage;
