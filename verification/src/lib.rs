//! An in-memory key-value store that speaks the RESP wire protocol.
//!
//! The crate holds the protocol's logic: the frame model, the byte-exact
//! codec, the keyed store with lazy expiry, and the command dispatcher.
//! Every function is verified against a mathematical model of the data
//! it works on.

pub mod buffer;
pub mod clock;
pub mod codec_laws;
pub mod command_laws;
pub mod commands;
pub mod connection;
pub mod decimal;
pub mod parser;
pub mod resp_frame;
pub mod serializer;
pub mod store;
pub mod text;
