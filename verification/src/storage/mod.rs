//! The logs of partitions: segments, their indices, retention and compaction.

pub mod compaction;
pub mod index;
pub mod laws;
pub mod log;
pub mod offsets;
pub mod recovery;
pub mod scan;
pub mod segment;

pub use log::PartitionLog;
pub use segment::LogSegment;
