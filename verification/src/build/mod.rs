//! What is known when the server is built: its version, its platform and the time.

pub mod info;
pub mod once;
pub mod platform;
pub mod variables;
pub mod version;
pub mod laws;
