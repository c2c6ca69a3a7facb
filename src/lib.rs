//! A small key-value server protocol: a verified frame codec, a buffered
//! framing state machine, and command dispatch over an in-memory store.

pub mod decimal;
pub mod frame;
pub mod laws;
pub mod connection;
pub mod store;
pub mod command;
