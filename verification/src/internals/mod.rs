//! What the broker keeps for itself: internal topics, and the state of
//! idempotent producers.

pub mod idempotence;
pub mod laws;
pub mod topics;

pub use topics::{InternalTopics, CLUSTER_METADATA_TOPIC, CONSUMER_OFFSETS_TOPIC};
