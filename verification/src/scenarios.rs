//! Building blocks for scenario drivers.

pub mod common;
pub mod complete;

pub use common::{requested_all, send_batch};
pub use complete::{full_mesh, in_mesh, init_simple, is_full_mesh, link_meshed, LINK_PROB, STEPS};
