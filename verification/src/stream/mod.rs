//! The response stream of the upstream service.

pub mod chunks;
pub mod decoder;
pub mod frame;
pub mod message;
pub mod laws;
pub mod decoder_laws;
