//! A broker that speaks the Kafka protocol.

pub mod buf;
pub mod clock;
pub mod cluster;
pub mod config;
pub mod group;
pub mod internals;
pub mod maps;
pub mod metrics;
pub mod order;
pub mod protocol;
pub mod server;
pub mod storage;
pub mod supported;
pub mod text;

pub use clock::now_ms;
pub use config::BrokerConfig;
pub use supported::SUPPORTED_API_KEYS;
