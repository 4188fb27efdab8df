//! Windowed aggregation of timestamped, keyed events, and a reusable
//! capacity-or-deadline batching state machine, with the plain data model of
//! the chat API that feeds them.
//!
//! - `window`: the aggregation engine, proved against the model in `model`.
//! - `stream`: drives the engine from a sequence of events.
//! - `batch`: the batching state machine and its model.
//! - `discord`: API data, channel selection, endpoints, paging and retries.
//! - `laws`: what holds of the engine over any input.

pub mod batch;
pub mod discord;
pub mod laws;
pub mod model;
pub mod order;
pub mod stream;
pub mod window;

pub use batch::{ChunksTimeout, Polled, Step};
pub use window::{Aggregation, Aggregator, Location, Message};
