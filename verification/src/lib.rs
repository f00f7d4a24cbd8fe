//! Verified core of `kafq`, a command-line client for Apache Kafka.

pub mod client;
pub mod clock;
pub mod commands;
pub mod error;
pub mod formatter;
pub mod json;
pub mod offsets;
pub mod order;
pub mod output;
pub mod text;
pub mod timestamp;
pub mod wasm_formatter;
