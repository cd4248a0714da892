//! The routing protocols, each written as a transition function that the
//! driver calls whenever its agent wakes up.

pub mod cbr;
pub mod dsdv;
pub mod gossip;
pub mod routing;

pub use cbr::{cbr_actor, CBRMessage, CbrState, CbrView};
pub use dsdv::{dsdv_actor, DSDVMessage, DsdvMessageView, DsdvState, DsdvView, RoutingEntry};
pub use gossip::{gossip_actor, GossipMessage, GossipState, GossipView};
pub use routing::RoutableMessage;
