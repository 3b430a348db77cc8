//! A server between chat clients and the upstream chat service.
//!
//! The library holds what the server decides and computes: the messages of the upstream stream
//! ([`stream`], [`decoder`]), the conversion of requests ([`adapter`]), the chat and agent requests
//! that it answers ([`chat`], [`agent`]), its configuration and pages ([`app`], [`server`]), its
//! tokens and keys ([`tokens`], [`dynamic_key`]), what describes its build ([`build`]), and an
//! ordered index ([`tree`]).

pub mod adapter;
pub mod agent;
pub mod app;
pub mod app_laws;
pub mod build;
pub mod chat;
pub mod chat_laws;
pub mod codec;
pub mod decoder;
pub mod decoder_laws;
pub mod dynamic_key;
pub mod key_laws;
pub mod message;
pub mod niche_types;
pub mod number;
pub mod number_laws;
pub mod server;
pub mod server_laws;
pub mod session;
pub mod session_laws;
pub mod store;
pub mod stream;
pub mod text;
pub mod text_function_laws;
pub mod text_laws;
pub mod token_file_laws;
pub mod tokens;
pub mod tokens_laws;
pub mod tree;
