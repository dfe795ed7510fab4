//! Kafka-compatible wire messages and a pass-through byte codec.
pub mod api;
pub mod codec;
pub mod describe_groups;
pub mod metadata;
pub mod wire;
pub mod laws;
