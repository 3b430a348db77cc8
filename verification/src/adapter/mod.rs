//! Conversions between the requests of clients and those of the upstream service.

pub mod anthropic;
pub mod content;
pub mod laws;
pub mod request_laws;
pub mod name_laws;
pub mod tool_id;
pub mod tool_name;
