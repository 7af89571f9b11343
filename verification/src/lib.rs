//! A minimal secure messaging transport: length-delimited framing over a byte
//! stream, a one-shot key-exchange handshake per connection, and an
//! encrypt-then-MAC channel for application payloads, with a registry of live
//! sessions for broadcast fan-out.
pub mod channel;
pub mod client;
pub mod connection;
pub mod errors;
pub mod frame;
pub mod handshake;
pub mod registry;
