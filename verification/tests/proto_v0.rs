//! Wire-framing tests: the tests the protocol promises to pass, driven
//! through the buffer transport.

use bytes::BytesMut;
use cbor_rpc::error::{ProtocolError, TransportError};
use cbor_rpc::proto::v0::{RPCMsg, TAG_ID_RPCV0};
use cbor_rpc::proto::{ErrorValue, MethodID, Params, Request, RequestID, Response};
use cbor_rpc::transport::{BufTransport, CBORTransport, ClientTransport, ServerTransport};
use cbor_rpc::value::Value;

fn sample_params() -> Params {
    Params::Array(vec![
        Value::Text("one".to_string()),
        Value::Integer(2),
        Value::Text("three".to_string()),
    ])
}

#[test]
fn encode_request() {
    let mut tr = BufTransport::new(BytesMut::with_capacity(4096));
    let mut req = Request {
        method: MethodID::Text("hello".to_string()),
        params: Some(sample_params()),
        req_id: Some(RequestID::Number(42)),
    };
    tr.send_request(req.clone()).unwrap();
    assert!(tr.buffer.len() <= 38);
    let req2: Request = tr.read_request().unwrap();
    println!("req: {:?}", req2);
    assert_eq!(req, req2);
    req.params = None;
    tr.send_request(req.clone()).unwrap();
    let req2: Request = tr.read_request().unwrap();
    println!("req: {:?}", req2);
    assert_eq!(req, req2);
    req.req_id = None;
    tr.send_request(req.clone()).unwrap();
    let req2: Request = tr.read_request().unwrap();
    println!("req: {:?}", req2);
    assert_eq!(req, req2);
}

#[test]
fn encode_response() {
    let mut tr = BufTransport::new(BytesMut::with_capacity(4096));
    let mut resp = Response {
        result: Ok(Value::Text("yay".to_string())),
        req_id: RequestID::Number(42),
    };
    tr.send_response(resp.clone()).unwrap();
    let resp2: Response = tr.read_response().unwrap();
    println!("resp: {:?}", resp2);
    assert_eq!(resp, resp2);
    resp.result = Err(ErrorValue {
        code: 418,
        message: "I'm a teapot".to_string(),
        data: None,
    });
    tr.send_response(resp.clone()).unwrap();
    println!("len: {:?}", tr.buffer.len());
    println!("msg: {:?}", tr.buffer);
    let val = tr.read_cbor().unwrap();
    println!("val: {:?}", val);
    tr.send_response(resp.clone()).unwrap();
    let resp2: Response = tr.read_response().unwrap();
    println!("resp: {:?}", resp2);
    assert_eq!(resp, resp2);
}

#[test]
fn response_error_data_round_trip() {
    let mut tr = BufTransport::new(BytesMut::new());
    let resp = Response {
        result: Err(ErrorValue {
            code: -7,
            message: "busted".to_string(),
            data: Some(Value::Array(vec![Value::Bool(true), Value::Null])),
        }),
        req_id: RequestID::Binary(vec![1, 2, 3]),
    };
    tr.send_response(resp.clone()).unwrap();
    assert_eq!(tr.read_response().unwrap(), resp);
}

#[test]
fn wrong_kind_is_unexpected_message() {
    // a request read as a response, and a response read as a request,
    // fail with the wrong-kind protocol error and never spuriously succeed
    let mut tr = BufTransport::new(BytesMut::new());
    let req = Request {
        method: MethodID::Number(1),
        params: None,
        req_id: Some(RequestID::Number(9)),
    };
    tr.send_request(req).unwrap();
    match tr.read_response() {
        Err(TransportError::Proto(ProtocolError::UnexpectedMessage)) => {},
        other => panic!("expected UnexpectedMessage, got {:?}", other),
    }
    let resp = Response {
        result: Ok(Value::Null),
        req_id: RequestID::Number(9),
    };
    tr.send_response(resp).unwrap();
    match tr.read_request() {
        Err(TransportError::Proto(ProtocolError::UnexpectedMessage)) => {},
        other => panic!("expected UnexpectedMessage, got {:?}", other),
    }
}

#[test]
fn missing_or_wrong_tag_is_rejected() {
    // an untagged request-shaped map is not accepted as a message
    let shape = Value::Mapping(vec![(
        Value::Text("fn".to_string()),
        Value::Text("hello".to_string()),
    )]);
    let mut tr = BufTransport::new(BytesMut::new());
    tr.send_cbor(shape.clone()).unwrap();
    match tr.read_request() {
        Err(TransportError::Decode { .. }) => {},
        other => panic!("expected decode error, got {:?}", other),
    }
    // the same map under a different tag number is rejected too
    let wrong_tag = Value::Tag(TAG_ID_RPCV0 + 1, Box::new(shape));
    let mut tr = BufTransport::new(BytesMut::new());
    tr.send_cbor(wrong_tag).unwrap();
    match tr.read_request() {
        Err(TransportError::Decode { .. }) => {},
        other => panic!("expected decode error, got {:?}", other),
    }
}

#[test]
fn decoded_field_order_is_insensitive() {
    // the same logical request with its keys in another order decodes to
    // the same typed value
    let reordered = Value::Tag(
        TAG_ID_RPCV0,
        Box::new(Value::Mapping(vec![
            (Value::Text("id".to_string()), Value::Integer(42)),
            (Value::Text("fn".to_string()), Value::Text("hello".to_string())),
        ])),
    );
    let msg = RPCMsg::from_value(reordered).unwrap();
    let req = msg.into_request().unwrap();
    assert_eq!(
        req,
        Request {
            method: MethodID::Text("hello".to_string()),
            params: None,
            req_id: Some(RequestID::Number(42)),
        }
    );
}

#[test]
fn duplicate_or_unknown_keys_are_rejected() {
    let dup = Value::Tag(
        TAG_ID_RPCV0,
        Box::new(Value::Mapping(vec![
            (Value::Text("fn".to_string()), Value::Integer(1)),
            (Value::Text("fn".to_string()), Value::Integer(2)),
        ])),
    );
    assert_eq!(RPCMsg::from_value(dup), Err(ProtocolError::InvalidMessage));
    let unknown = Value::Tag(
        TAG_ID_RPCV0,
        Box::new(Value::Mapping(vec![
            (Value::Text("fn".to_string()), Value::Integer(1)),
            (Value::Text("extra".to_string()), Value::Integer(2)),
        ])),
    );
    assert_eq!(RPCMsg::from_value(unknown), Err(ProtocolError::InvalidMessage));
}

#[test]
fn empty_params_collapse_encodes_identically() {
    let collapsed = Request {
        method: MethodID::Text("m".to_string()),
        params: Params::Array(vec![]).into_option(),
        req_id: Some(RequestID::Number(7)),
    };
    let bare = Request {
        method: MethodID::Text("m".to_string()),
        params: None,
        req_id: Some(RequestID::Number(7)),
    };
    let a = RPCMsg::from_request(collapsed).encode().unwrap();
    let b = RPCMsg::from_request(bare).encode().unwrap();
    assert_eq!(a, b);
}

#[test]
fn params_emptiness_and_collapse() {
    assert!(Params::Array(vec![]).is_empty());
    assert!(Params::Named(vec![]).is_empty());
    assert!(!sample_params().is_empty());
    assert_eq!(Params::Array(vec![]).into_option(), None);
    assert_eq!(Params::Named(vec![]).into_option(), None);
    let p = sample_params();
    assert_eq!(p.clone().into_option(), Some(p));
}

#[test]
fn encode_refuses_out_of_range_integer() {
    let req = Request {
        method: MethodID::Text("m".to_string()),
        params: Some(Params::Array(vec![Value::Integer(i128::MAX)])),
        req_id: None,
    };
    match RPCMsg::from_request(req).encode() {
        Err(TransportError::Encode(_)) => {},
        other => panic!("expected encode error, got {:?}", other),
    }
}

#[test]
fn named_params_round_trip() {
    let mut tr = BufTransport::new(BytesMut::new());
    let req = Request {
        method: MethodID::Number(3),
        params: Some(Params::Named(vec![
            ("left".to_string(), Value::Integer(10)),
            ("right".to_string(), Value::Text("x".to_string())),
        ])),
        req_id: None,
    };
    tr.send_request(req.clone()).unwrap();
    assert_eq!(tr.read_request().unwrap(), req);
}

#[test]
fn unicode_text_round_trip() {
    let mut tr = BufTransport::new(BytesMut::new());
    let req = Request {
        method: MethodID::Text("ünïcodé ☃ 日本語".to_string()),
        params: None,
        req_id: Some(RequestID::Text("clé".to_string())),
    };
    tr.send_request(req.clone()).unwrap();
    assert_eq!(tr.read_request().unwrap(), req);
}
