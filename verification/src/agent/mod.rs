//! Agents: the model is called again and again, with the results of the tools that it asked for,
//! until it asks for none.
//!
//! All calls of a session share one model call: each identifier of a tool call carries it.

pub mod run;
pub mod session;
pub mod laws;
