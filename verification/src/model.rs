//! The simulation engine and the data it owns.

pub mod connections;
pub mod message;
pub mod model;
pub mod stats;

pub use connections::{
    clamped_delay, link_key, ConnMap, ConnView, DEFAULT_DELAY, DEVIATION, MIN_DELAY, PROB_ONE,
};
pub use message::{event_view, views, Message, MessageType, RequestMessage};
pub use model::{
    arrivals, broadcasts_fit, draw_rows, extended_by, grows_by, injected, is_copy, nth_other,
    recipients, reported, reports_fit, Arrival, Barrier, Context, DeliveryError, Model, Shutdown,
    StepOutcome, Wait,
};
pub use stats::{MessageStat, Stats, StatsView};
