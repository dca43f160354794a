//! What a broker does with the requests of its clients.

pub mod answers;
pub mod groups;
pub mod handler;
pub mod laws;
pub mod metadata;
pub mod records;
pub mod request;
pub mod state;
pub mod topics;

pub use metadata::MetadataManager;
pub use state::RequestHandler;
