//! Simple actors, for trying out the engine.

pub mod basic;

pub use basic::{gossip_actor, BasicState, BasicView, GossipMessage};
