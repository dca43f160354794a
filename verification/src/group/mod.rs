//! Consumer groups: their members, and the offsets they commit.

pub mod coordinator;
pub mod laws;
pub mod offset_store;

pub use coordinator::GroupCoordinator;
