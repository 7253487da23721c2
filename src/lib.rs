//! A discrete-event simulator for queueing networks: arrivals flow through a
//! graph of multi-server stations with bounded queues, weighted routing to
//! successors and a cascade along failure links when a station is full.
//!
//! Time is measured in whole time units (`u64`); the caller picks the scale.

pub mod modeling;
pub mod implementation;
mod random;
