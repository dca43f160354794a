//! Requests and responses.

pub mod api_versions;
pub mod fetch;
pub mod groups;
pub mod metadata;
pub mod offsets;
pub mod produce;
pub mod topics;
