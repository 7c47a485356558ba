//! An in-memory key-value server's core: the wire codec, the commands and
//! their execution against a store with per-key expiry, and the per-connection
//! state machine.
pub mod client;
pub mod command;
pub mod config;
pub mod decimal;
pub mod resp;
pub mod store;
pub mod text;
