//! Client-side engine for a STOMP-style text messaging protocol.
//!
//! The crate turns a raw, possibly fragmented byte stream into typed
//! protocol messages and back: the frame grammar (command line, escaped
//! header lines, optional body, NUL terminator), the typed message model
//! for both directions, the streaming codec that adapts the grammar to a
//! caller-owned byte buffer, and the connection handshake state machine.

pub mod frame;
pub mod message;
pub mod codec;
pub mod handshake;
