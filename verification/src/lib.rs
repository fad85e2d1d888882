//! A lightweight, transport-agnostic RPC message format built on a
//! self-describing binary value encoding (CBOR, RFC 8949).
//!
//! Peers exchange typed requests (method identifier, arguments, optional
//! correlation id) and responses (success value or structured error, tied to
//! a correlation id). Every message is framed as a tagged dynamic value and
//! encoded to bytes; the encoder, decoder, validation rules, and framing
//! protocol are all specified and verified here.

pub mod codec;
pub mod error;
pub mod proto;
pub mod transport;
pub mod value;
