//! Several brokers as one: consensus by Raft, and the controller.

pub mod controller;
pub mod driver;
pub mod laws;
pub mod raft;
pub mod transport;

pub use controller::ClusterController;
pub use raft::{NodeRole, RaftNode};
