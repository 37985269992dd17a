//! A policy-governed message broker.
//!
//! A policy text declares roles, message schemas and permissions. The
//! library compiles it, checks every inbound message against it, and routes
//! accepted messages between connections: broadcasts to subscribers,
//! requests to the one responder of a channel.

pub mod policy;
pub mod payload;
pub mod message;
pub mod validator;
pub mod text;
pub mod json;
pub mod wire;
pub mod lexer;
pub mod parser;
pub mod broker;
pub mod connections;
pub mod session;
pub mod grammar;
