//! The transport abstraction: two channel shapes (a stream channel and a
//! growable buffer channel) and three capability interfaces for moving
//! whole frames — raw dynamic values, client-role messages, and
//! server-role messages. Each read or write call moves exactly one
//! complete frame; partial frames are never produced or consumed.
//!
//! All framing and validation logic lives in the verified codec and
//! framing layers. A channel only has to move bytes: it implements
//! [`ByteSource`] (hand out the next byte) and [`ByteSink`] (accept a
//! whole frame). This crate wires up `bytes::BytesMut` as an in-memory
//! channel; a stream channel (a socket, a pipe) is wired up by
//! implementing the two traits over its own read and write calls.

use vstd::prelude::*;

use crate::codec::{decode_value, encode_value, DecodeFail};
use crate::error::TransportError;
use crate::proto::v0::{msg_dec, MsgModel, RPCMsg};
use crate::proto::{Request, Response};
use crate::value::Value;

verus! {

/// A byte channel frames are read from: hands out the bytes of the
/// channel in order, `None` when the channel is exhausted. A failure of
/// the underlying channel is reported as an I/O transport error.
pub trait ByteSource {
    fn next_byte(&mut self) -> Result<Option<u8>, TransportError>;
}

/// A byte channel frames are written to: accepts a whole frame and makes
/// it durable (for a stream: write and flush). A failure of the
/// underlying channel is reported as an I/O transport error.
pub trait ByteSink {
    fn put_bytes(&mut self, frame: &[u8]) -> Result<(), TransportError>;
}

/// A transport over any synchronous byte channel (a socket, a pipe):
/// each read decodes exactly one frame from the head of the stream, each
/// write encodes one frame and flushes it. An exhausted channel in the
/// middle of a frame is a hard failure.
pub struct Transport<C> {
    pub channel: C,
}

impl<C> Transport<C> {
    /// Wrap a byte channel.
    pub fn new(channel: C) -> (r: Self)
        ensures
            r.channel == channel,
    {
        Self { channel }
    }
}

/// A transport over a growable, readable byte buffer (an in-memory
/// queue): the same one-frame-per-call contract as [`Transport`], useful
/// for tests and for transports that preserve frame boundaries
/// externally.
pub struct BufTransport<B> {
    pub buffer: B,
}

impl<B> BufTransport<B> {
    /// Wrap a byte buffer.
    pub fn new(buffer: B) -> (r: Self)
        ensures
            r.buffer == buffer,
    {
        Self { buffer }
    }
}

/// Raw-value transport: send or receive one arbitrary dynamic value with
/// no framing tag — an escape hatch for diagnostics and tests.
pub trait CBORTransport {
    type Error;

    type SendResult;

    fn send_cbor(&mut self, value: Value) -> Result<Self::SendResult, Self::Error>;

    /// Any value read off a channel is one the decoder accepts: it is the
    /// decoding of some byte sequence.
    fn read_cbor(&mut self) -> (r: Result<Value, Self::Error>)
        ensures
            r is Ok ==> exists|b: Seq<u8>|
                #![auto]
                crate::codec::dec(b, crate::codec::DECODE_DEPTH_LIMIT as nat) is Some && (
                crate::codec::dec(b, crate::codec::DECODE_DEPTH_LIMIT as nat)->0).0 == r->Ok_0@,
    ;
}

/// Client-role transport: send requests, read responses.
pub trait ClientTransport {
    type Error;

    type SendResult;

    fn send_request(&mut self, request: Request) -> Result<Self::SendResult, Self::Error>;

    /// Any response read off a channel is one the wire format accepts: it
    /// is the decoding of some byte sequence holding a response frame.
    fn read_response(&mut self) -> (r: Result<Response, Self::Error>)
        ensures
            r is Ok ==> exists|b: Seq<u8>|
                #![auto]
                msg_dec(b) is Some && (msg_dec(b)->0).0 == MsgModel::Response(r->Ok_0@),
    ;
}

/// Server-role transport: read requests, send responses.
pub trait ServerTransport {
    type Error;

    type SendResult;

    fn send_response(&mut self, response: Response) -> Result<Self::SendResult, Self::Error>;

    /// Any request read off a channel is one the wire format accepts: it
    /// is the decoding of some byte sequence holding a request frame.
    fn read_request(&mut self) -> (r: Result<Request, Self::Error>)
        ensures
            r is Ok ==> exists|b: Seq<u8>|
                #![auto]
                msg_dec(b) is Some && (msg_dec(b)->0).0 == MsgModel::Request(r->Ok_0@),
    ;
}

// ----- The in-memory channel --------------------------------------------------
/// `bytes::BytesMut`, the growable byte buffer of the bytes crate;
/// opaque to the verifier.
#[verifier::external_type_specification]
#[verifier::external_body]
pub struct ExBytesMut(bytes::BytesMut);

/// Relies on `bytes::Buf::has_remaining` and `bytes::Buf::get_u8` of the
/// bytes crate: takes the next byte off the front of the buffer, or
/// `None` when the buffer is empty (the emptiness test guards `get_u8`,
/// which must not be called on an empty buffer).
#[verifier::external_body]
fn bytesmut_next_byte(buffer: &mut bytes::BytesMut) -> (r: Option<u8>) {
    if bytes::Buf::has_remaining(buffer) {
        Some(bytes::Buf::get_u8(buffer))
    } else {
        None
    }
}

/// Relies on `bytes::BytesMut::extend_from_slice`: appends the whole
/// slice to the buffer, growing it as needed.
#[verifier::external_body]
fn bytesmut_put_bytes(buffer: &mut bytes::BytesMut, frame: &[u8]) {
    buffer.extend_from_slice(frame);
}

impl ByteSource for bytes::BytesMut {
    fn next_byte(&mut self) -> Result<Option<u8>, TransportError> {
        Ok(bytesmut_next_byte(self))
    }
}

impl ByteSink for bytes::BytesMut {
    fn put_bytes(&mut self, frame: &[u8]) -> Result<(), TransportError> {
        bytesmut_put_bytes(self, frame);
        Ok(())
    }
}

// ----- Verified frame moving --------------------------------------------------
/// Read bytes off the channel one at a time until they hold exactly one
/// complete dynamic value, and return it: the bytes consumed are exactly
/// one frame, since decoding succeeds at the first byte that completes a
/// value. Whatever the channel hands back, a returned value is one that
/// the decoder accepts.
fn read_value_from<C: ByteSource>(channel: &mut C) -> (r: Result<Value, TransportError>)
    ensures
        r is Ok ==> exists|b: Seq<u8>|
            #![auto]
            crate::codec::dec(b, crate::codec::DECODE_DEPTH_LIMIT as nat) is Some
                && (crate::codec::dec(b, crate::codec::DECODE_DEPTH_LIMIT as nat)->0).0
                == r->Ok_0@,
{
    let mut buf: Vec<u8> = Vec::new();
    // a frame longer than the address space cannot arrive; the budget only
    // bounds the loop
    let mut budget: u64 = 0xffff_ffff_ffff_ffff;
    while budget > 0
        decreases budget,
    {
        match decode_value(buf.as_slice()) {
            Ok((value, _used)) => {
                return Ok(value);
            },
            Err(DecodeFail::Incomplete) => {
                match channel.next_byte() {
                    Ok(Some(b)) => {
                        buf.push(b);
                    },
                    Ok(None) => {
                        return Err(DecodeFail::Incomplete.to_transport_error(buf.len()));
                    },
                    Err(e) => {
                        return Err(e);
                    },
                }
            },
            Err(e) => {
                return Err(e.to_transport_error(buf.len()));
            },
        }
        budget = budget - 1;
    }
    Err(TransportError::Decode { msg: "frame too large".to_owned(), pos: None })
}

/// Encode one value as a frame; a value with an integer outside the
/// encodable range is refused with [`TransportError::Encode`].
fn value_to_frame(value: Value) -> (r: Result<Vec<u8>, TransportError>)
    ensures
        value@.wf() ==> r is Ok && r->Ok_0@ == crate::codec::enc(value@),
        !value@.wf() ==> r is Err && r->Err_0 is Encode,
{
    if !value.is_wf() {
        return Err(TransportError::Encode("integer out of encodable range".to_owned()));
    }
    let mut out: Vec<u8> = Vec::new();
    encode_value(&value, &mut out);
    proof {
        assert(out@ =~= crate::codec::enc(value@));
    }
    Ok(out)
}

/// Recognize a freshly decoded dynamic value as a message, reporting an
/// unrecognizable one as a decode failure.
fn value_to_msg(value: Value) -> (r: Result<RPCMsg, TransportError>)
    ensures
        match crate::proto::v0::msg_of_value(value@) {
            Some(m) => r is Ok && r->Ok_0@ == m,
            None => r is Err && r->Err_0 is Decode,
        },
{
    match RPCMsg::from_value(value) {
        Ok(msg) => Ok(msg),
        Err(_) => Err(TransportError::Decode { msg: "not an RPC message".to_owned(), pos: None }),
    }
}

// ----- Trait implementations --------------------------------------------------
impl<C: ByteSource + ByteSink> CBORTransport for Transport<C> {
    type Error = TransportError;

    type SendResult = ();

    fn send_cbor(&mut self, value: Value) -> Result<Self::SendResult, Self::Error> {
        let frame = value_to_frame(value)?;
        self.channel.put_bytes(frame.as_slice())?;
        Ok(())
    }

    fn read_cbor(&mut self) -> Result<Value, Self::Error> {
        read_value_from(&mut self.channel)
    }
}

impl<B: ByteSource + ByteSink> CBORTransport for BufTransport<B> {
    type Error = TransportError;

    type SendResult = ();

    fn send_cbor(&mut self, value: Value) -> Result<Self::SendResult, Self::Error> {
        let frame = value_to_frame(value)?;
        self.buffer.put_bytes(frame.as_slice())?;
        Ok(())
    }

    fn read_cbor(&mut self) -> Result<Value, Self::Error> {
        read_value_from(&mut self.buffer)
    }
}

impl<C: ByteSource + ByteSink> ClientTransport for Transport<C> {
    type Error = TransportError;

    type SendResult = ();

    fn send_request(&mut self, request: Request) -> Result<Self::SendResult, Self::Error> {
        let frame = RPCMsg::from_request(request).encode()?;
        self.channel.put_bytes(frame.as_slice())?;
        Ok(())
    }

    fn read_response(&mut self) -> Result<Response, Self::Error> {
        let value = read_value_from(&mut self.channel)?;
        let ghost vm = value@;
        let msg = value_to_msg(value)?;
        match msg.into_response() {
            Ok(resp) => {
                proof {
                    let b = choose|b: Seq<u8>|
                        #![auto]
                        crate::codec::dec(b, crate::codec::DECODE_DEPTH_LIMIT as nat) is Some && (
                        crate::codec::dec(b, crate::codec::DECODE_DEPTH_LIMIT as nat)->0).0 == vm;
                    assert(msg_dec(b) is Some && (msg_dec(b)->0).0 == MsgModel::Response(resp@));
                }
                Ok(resp)
            },
            Err(e) => Err(TransportError::Proto(e)),
        }
    }
}

impl<C: ByteSource + ByteSink> ServerTransport for Transport<C> {
    type Error = TransportError;

    type SendResult = ();

    fn send_response(&mut self, response: Response) -> Result<Self::SendResult, Self::Error> {
        let frame = RPCMsg::from_response(response).encode()?;
        self.channel.put_bytes(frame.as_slice())?;
        Ok(())
    }

    fn read_request(&mut self) -> Result<Request, Self::Error> {
        let value = read_value_from(&mut self.channel)?;
        let ghost vm = value@;
        let msg = value_to_msg(value)?;
        match msg.into_request() {
            Ok(req) => {
                proof {
                    let b = choose|b: Seq<u8>|
                        #![auto]
                        crate::codec::dec(b, crate::codec::DECODE_DEPTH_LIMIT as nat) is Some && (
                        crate::codec::dec(b, crate::codec::DECODE_DEPTH_LIMIT as nat)->0).0 == vm;
                    assert(msg_dec(b) is Some && (msg_dec(b)->0).0 == MsgModel::Request(req@));
                }
                Ok(req)
            },
            Err(e) => Err(TransportError::Proto(e)),
        }
    }
}

impl<B: ByteSource + ByteSink> ClientTransport for BufTransport<B> {
    type Error = TransportError;

    type SendResult = ();

    fn send_request(&mut self, request: Request) -> Result<Self::SendResult, Self::Error> {
        let frame = RPCMsg::from_request(request).encode()?;
        self.buffer.put_bytes(frame.as_slice())?;
        Ok(())
    }

    fn read_response(&mut self) -> Result<Response, Self::Error> {
        let value = read_value_from(&mut self.buffer)?;
        let ghost vm = value@;
        let msg = value_to_msg(value)?;
        match msg.into_response() {
            Ok(resp) => {
                proof {
                    let b = choose|b: Seq<u8>|
                        #![auto]
                        crate::codec::dec(b, crate::codec::DECODE_DEPTH_LIMIT as nat) is Some && (
                        crate::codec::dec(b, crate::codec::DECODE_DEPTH_LIMIT as nat)->0).0 == vm;
                    assert(msg_dec(b) is Some && (msg_dec(b)->0).0 == MsgModel::Response(resp@));
                }
                Ok(resp)
            },
            Err(e) => Err(TransportError::Proto(e)),
        }
    }
}

impl<B: ByteSource + ByteSink> ServerTransport for BufTransport<B> {
    type Error = TransportError;

    type SendResult = ();

    fn send_response(&mut self, response: Response) -> Result<Self::SendResult, Self::Error> {
        let frame = RPCMsg::from_response(response).encode()?;
        self.buffer.put_bytes(frame.as_slice())?;
        Ok(())
    }

    fn read_request(&mut self) -> Result<Request, Self::Error> {
        let value = read_value_from(&mut self.buffer)?;
        let ghost vm = value@;
        let msg = value_to_msg(value)?;
        match msg.into_request() {
            Ok(req) => {
                proof {
                    let b = choose|b: Seq<u8>|
                        #![auto]
                        crate::codec::dec(b, crate::codec::DECODE_DEPTH_LIMIT as nat) is Some && (
                        crate::codec::dec(b, crate::codec::DECODE_DEPTH_LIMIT as nat)->0).0 == vm;
                    assert(msg_dec(b) is Some && (msg_dec(b)->0).0 == MsgModel::Request(req@));
                }
                Ok(req)
            },
            Err(e) => Err(TransportError::Proto(e)),
        }
    }
}

} // verus!
