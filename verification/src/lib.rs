//! A step-synchronous simulator core for ad-hoc routing protocols.
//!
//! The crate holds the deterministic heart of the simulation: the link map,
//! the delivery buffer and the per-tick engine, the delivery statistics, and
//! the routing protocols written as transition functions. Everything that
//! needs a runtime (channels, tasks, floating-point sampling) is expected to
//! live in the program that drives this library.

pub mod actors;
pub mod model;
pub mod protocols;
pub mod scenarios;
pub mod walk;
