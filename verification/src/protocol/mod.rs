//! The wire protocol: primitive values, messages and record batches.

pub mod apikey;
pub mod codec;
pub mod compression;
pub mod error_codes;
pub mod header;
pub mod laws;
pub mod messages;
pub mod primitive;
pub mod recordbatch;
pub mod run;
pub mod wire;

pub use compression::Compression;
pub use header::RequestHeader;
pub use primitive::{Decoder, Encoder, Error as ProtocolError, Result};
pub use recordbatch::{Attribute as RecordBatchAttribute, Record, RecordBatch, RecordBatchReader};
