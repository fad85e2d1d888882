//! The two layered error kinds of this crate: protocol-level validation
//! errors and transport-level errors.

use vstd::prelude::*;

verus! {

/// A semantic-validity failure: the shape or contents of a dynamic value do
/// not match the typed message model.
#[derive(Debug, Clone, PartialEq, Eq, Structural)]
pub enum ProtocolError {
    /// A method id on the wire was not an unsigned 64-bit integer or text.
    InvalidMethodID,
    /// A request id on the wire was not an unsigned 64-bit integer, text, or
    /// a byte string.
    InvalidRequestID,
    /// A params value on the wire was not an array or a map.
    InvalidParamType,
    /// A map used as named params held a non-text key.
    InvalidKeyType,
    /// A dynamic value was not a recognized RPC message.
    InvalidMessage,
    /// A message decoded fine but was not the kind the caller asked for.
    UnexpectedMessage,
}

/// The mechanical-failure layer: I/O failures are passed through, protocol
/// errors are wrapped, and encode/decode failures carry a descriptive
/// message. A decode failure also carries a byte offset into the input when
/// the decoder can localize the fault.
#[derive(Debug)]
pub enum TransportError {
    /// An I/O failure of the underlying channel, wrapped verbatim.
    Io(std::io::Error),
    /// A protocol-level validation failure, wrapped.
    Proto(ProtocolError),
    /// The value handed to the encoder was outside the encodable universe.
    Encode(String),
    /// The input bytes do not hold a well-formed message. `pos` is the byte
    /// offset of the fault when the decoder can localize it.
    Decode { msg: String, pos: Option<usize> },
}

/// `std::io::Error` carried inside [`TransportError::Io`]; opaque to the
/// verifier.
#[verifier::external_type_specification]
#[verifier::external_body]
pub struct ExIoError(std::io::Error);

} // verus!
