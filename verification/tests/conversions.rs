//! Conversion-layer tests: validation of untyped input against the typed
//! model, and the total outbound conversions.

use cbor_rpc::error::ProtocolError;
use cbor_rpc::proto::{MethodID, Params, RequestID};
use cbor_rpc::value::Value;

#[test]
fn params_from_array_and_map() {
    let arr = Value::Array(vec![Value::Integer(1), Value::Null]);
    assert_eq!(
        Params::from_value(arr),
        Ok(Params::Array(vec![Value::Integer(1), Value::Null]))
    );
    let map = Value::Mapping(vec![
        (Value::Text("a".to_string()), Value::Integer(1)),
        (Value::Text("b".to_string()), Value::Bool(false)),
    ]);
    assert_eq!(
        Params::from_value(map),
        Ok(Params::Named(vec![
            ("a".to_string(), Value::Integer(1)),
            ("b".to_string(), Value::Bool(false)),
        ]))
    );
}

#[test]
fn params_rejects_non_text_key() {
    let map = Value::Mapping(vec![
        (Value::Text("a".to_string()), Value::Integer(1)),
        (Value::Integer(2), Value::Bool(false)),
    ]);
    assert_eq!(Params::from_value(map), Err(ProtocolError::InvalidKeyType));
}

#[test]
fn params_rejects_scalar() {
    assert_eq!(
        Params::from_value(Value::Integer(5)),
        Err(ProtocolError::InvalidParamType)
    );
    assert_eq!(
        Params::from_value(Value::Text("x".to_string())),
        Err(ProtocolError::InvalidParamType)
    );
}

#[test]
fn request_id_range_checks() {
    assert_eq!(
        RequestID::from_value(Value::Integer(-1)),
        Err(ProtocolError::InvalidRequestID)
    );
    assert_eq!(
        RequestID::from_value(Value::Integer(u64::MAX as i128 + 1)),
        Err(ProtocolError::InvalidRequestID)
    );
    assert_eq!(
        RequestID::from_value(Value::Integer(u64::MAX as i128)),
        Ok(RequestID::Number(u64::MAX))
    );
    assert_eq!(
        RequestID::from_value(Value::Text("id".to_string())),
        Ok(RequestID::Text("id".to_string()))
    );
    assert_eq!(
        RequestID::from_value(Value::Bytes(vec![9, 8])),
        Ok(RequestID::Binary(vec![9, 8]))
    );
    assert_eq!(
        RequestID::from_value(Value::Null),
        Err(ProtocolError::InvalidRequestID)
    );
}

#[test]
fn method_id_range_checks() {
    assert_eq!(
        MethodID::from_value(Value::Integer(-5)),
        Err(ProtocolError::InvalidMethodID)
    );
    assert_eq!(
        MethodID::from_value(Value::Integer(u64::MAX as i128 + 1)),
        Err(ProtocolError::InvalidMethodID)
    );
    assert_eq!(
        MethodID::from_value(Value::Integer(u64::MAX as i128)),
        Ok(MethodID::Number(u64::MAX))
    );
    assert_eq!(
        MethodID::from_value(Value::Text("m".to_string())),
        Ok(MethodID::Text("m".to_string()))
    );
    // a byte string is a valid request id but not a valid method id
    assert_eq!(
        MethodID::from_value(Value::Bytes(vec![1])),
        Err(ProtocolError::InvalidMethodID)
    );
}

#[test]
fn ids_hash_structurally() {
    // request and method ids can key a hash map
    let mut pending = std::collections::HashMap::new();
    pending.insert(RequestID::Number(1), "a");
    pending.insert(RequestID::Text("x".to_string()), "b");
    pending.insert(RequestID::Binary(vec![1, 2]), "c");
    assert_eq!(pending.get(&RequestID::Number(1)), Some(&"a"));
    assert_eq!(pending.get(&RequestID::Binary(vec![1, 2])), Some(&"c"));
    let mut methods = std::collections::HashMap::new();
    methods.insert(MethodID::Text("hello".to_string()), 7u32);
    assert_eq!(methods.get(&MethodID::Text("hello".to_string())), Some(&7));
}

#[test]
fn outbound_conversions_are_canonical() {
    assert_eq!(MethodID::Number(7).into_value(), Value::Integer(7));
    assert_eq!(
        MethodID::Text("m".to_string()).into_value(),
        Value::Text("m".to_string())
    );
    assert_eq!(RequestID::Binary(vec![1, 2]).into_value(), Value::Bytes(vec![1, 2]));
    assert_eq!(
        Params::Named(vec![("k".to_string(), Value::Null)]).into_value(),
        Value::Mapping(vec![(Value::Text("k".to_string()), Value::Null)])
    );
    assert_eq!(
        Params::Array(vec![Value::Integer(1)]).into_value(),
        Value::Array(vec![Value::Integer(1)])
    );
}
