//! A smooth weighted round-robin selection queue.
//!
//! A queue holds a list of weighted instances and serves selections from a
//! precomputed cyclic dispatch schedule, so that over a full period each
//! instance is chosen in proportion to its weight, with selections of the
//! same instance spread out rather than clustered.

mod instance;
mod schedule;
mod wrr_queue;

pub use instance::Instance;
pub use instance::Weight;
pub use instance::DEFAULT_WEIGHT;
pub use wrr_queue::select_instance;
pub use wrr_queue::WrrQueue;
