//! Codec tests: byte-level behavior of the value encoder and decoder, and
//! cross-checks against an independent implementation of the same
//! encoding (ciborium).

use bytes::BytesMut;
use cbor_rpc::codec::{decode_value, encode_value};
use cbor_rpc::transport::{BufTransport, CBORTransport};
use cbor_rpc::value::Value;

fn encode(v: &Value) -> Vec<u8> {
    let mut out = Vec::new();
    encode_value(v, &mut out);
    out
}

#[test]
fn buf_transport() {
    let mut tr = BufTransport::new(BytesMut::with_capacity(4096));
    let str_vec = vec!["one", "two", "three"];
    let v = Value::Array(str_vec.iter().map(|s| Value::Text(s.to_string())).collect());
    tr.send_cbor(v.clone()).unwrap();
    assert_eq!(
        tr.buffer.len(),
        str_vec.iter().map(|s| s.len() + 1).sum::<usize>() + 1
    );
    assert_eq!(tr.read_cbor().unwrap(), v);
}

#[test]
fn scalar_encodings_are_exact() {
    assert_eq!(encode(&Value::Integer(0)), vec![0x00]);
    assert_eq!(encode(&Value::Integer(23)), vec![0x17]);
    assert_eq!(encode(&Value::Integer(24)), vec![0x18, 24]);
    assert_eq!(encode(&Value::Integer(500)), vec![0x19, 0x01, 0xf4]);
    assert_eq!(encode(&Value::Integer(-1)), vec![0x20]);
    assert_eq!(encode(&Value::Integer(-500)), vec![0x39, 0x01, 0xf3]);
    assert_eq!(encode(&Value::Bool(false)), vec![0xf4]);
    assert_eq!(encode(&Value::Bool(true)), vec![0xf5]);
    assert_eq!(encode(&Value::Null), vec![0xf6]);
    assert_eq!(
        encode(&Value::Text("ab".to_string())),
        vec![0x62, b'a', b'b']
    );
    assert_eq!(encode(&Value::Bytes(vec![1, 2])), vec![0x42, 1, 2]);
}

#[test]
fn extreme_integers_round_trip() {
    for v in [
        0i128,
        -1,
        u64::MAX as i128,
        -(u64::MAX as i128) - 1,
        255,
        256,
        65535,
        65536,
        4294967295,
        4294967296,
    ] {
        let value = Value::Integer(v);
        let bytes = encode(&value);
        let (back, used) = decode_value(&bytes).unwrap();
        assert_eq!(back, value);
        assert_eq!(used, bytes.len());
    }
}

#[test]
fn float_bits_round_trip() {
    let value = Value::Float(1.5f64.to_bits());
    let bytes = encode(&value);
    assert_eq!(bytes[0], 0xfb);
    assert_eq!(bytes.len(), 9);
    let (back, _) = decode_value(&bytes).unwrap();
    assert_eq!(back, value);
}

#[test]
fn narrow_floats_widen_on_decode() {
    // a 2-byte float item: 1.5 as binary16
    let (v, used) = decode_value(&[0xf9, 0x3e, 0x00]).unwrap();
    assert_eq!(v, Value::Float(1.5f64.to_bits()));
    assert_eq!(used, 3);
    // the smallest binary16 subnormal, 2^-24
    let (v, _) = decode_value(&[0xf9, 0x00, 0x01]).unwrap();
    assert_eq!(v, Value::Float((-24.0f64).exp2().to_bits()));
    // negative infinity as binary16
    let (v, _) = decode_value(&[0xf9, 0xfc, 0x00]).unwrap();
    assert_eq!(v, Value::Float(f64::NEG_INFINITY.to_bits()));
    // a 4-byte float item: -1.25 as binary32
    let (v, used) = decode_value(&[0xfa, 0xbf, 0xa0, 0x00, 0x00]).unwrap();
    assert_eq!(v, Value::Float((-1.25f64).to_bits()));
    assert_eq!(used, 5);
    // the smallest binary32 subnormal, 2^-149
    let (v, _) = decode_value(&[0xfa, 0x00, 0x00, 0x00, 0x01]).unwrap();
    assert_eq!(v, Value::Float((-149.0f64).exp2().to_bits()));
}

#[test]
fn decoder_accepts_ciborium_float_output() {
    // ciborium writes each float in its shortest lossless width; decoding
    // its output must widen back to the same number
    for f in [1.5f64, -0.0, 0.25, 65504.0, f64::INFINITY, 1.1, 3.0e38, 5.0e-324] {
        let mut bytes = Vec::new();
        ciborium::ser::into_writer(&ciborium::value::Value::Float(f), &mut bytes).unwrap();
        let (back, used) = decode_value(&bytes).unwrap();
        assert_eq!(back, Value::Float(f.to_bits()), "mismatch for {} ({:?})", f, bytes);
        assert_eq!(used, bytes.len());
    }
}

#[test]
fn nested_structures_round_trip() {
    let value = Value::Mapping(vec![
        (
            Value::Text("list".to_string()),
            Value::Array(vec![Value::Integer(1), Value::Array(vec![Value::Null])]),
        ),
        (Value::Integer(-3), Value::Tag(99, Box::new(Value::Bool(true)))),
    ]);
    let bytes = encode(&value);
    let (back, used) = decode_value(&bytes).unwrap();
    assert_eq!(back, value);
    assert_eq!(used, bytes.len());
}

#[test]
fn malformed_and_incomplete_inputs_fail() {
    // reserved argument hint
    assert!(decode_value(&[0xff]).is_err());
    // array header promising two items, none present
    assert!(decode_value(&[0x82]).is_err());
    // truncated text payload
    assert!(decode_value(&[0x62, b'a']).is_err());
    // invalid UTF-8 in a text item
    assert!(decode_value(&[0x62, 0xff, 0xfe]).is_err());
    // the same bytes as a byte string are fine
    assert!(decode_value(&[0x42, 0xff, 0xfe]).is_ok());
}

#[test]
fn recursion_limit_is_enforced() {
    // 200 nested single-element arrays: deeper than the decoder accepts
    let mut bytes = vec![0x81u8; 200];
    bytes.push(0x00);
    assert!(decode_value(&bytes).is_err());
    // 100 nested arrays decode fine
    let mut ok_bytes = vec![0x81u8; 100];
    ok_bytes.push(0x00);
    assert!(decode_value(&ok_bytes).is_ok());
}

fn to_ciborium(v: &Value) -> ciborium::value::Value {
    type CV = ciborium::value::Value;
    match v {
        Value::Null => CV::Null,
        Value::Bool(b) => CV::Bool(*b),
        Value::Integer(i) => CV::Integer(ciborium::value::Integer::try_from(*i).unwrap()),
        Value::Float(bits) => CV::Float(f64::from_bits(*bits)),
        Value::Text(s) => CV::Text(s.clone()),
        Value::Bytes(b) => CV::Bytes(b.clone()),
        Value::Array(a) => CV::Array(a.iter().map(to_ciborium).collect()),
        Value::Mapping(m) => {
            CV::Map(m.iter().map(|(k, v)| (to_ciborium(k), to_ciborium(v))).collect())
        }
        Value::Tag(t, inner) => CV::Tag(*t, Box::new(to_ciborium(inner))),
    }
}

#[test]
fn encoder_agrees_with_ciborium() {
    let samples = vec![
        Value::Integer(42),
        Value::Integer(-42),
        Value::Integer(1000000),
        Value::Text("hello world".to_string()),
        Value::Bytes(vec![0, 1, 2, 255]),
        Value::Array(vec![Value::Bool(true), Value::Null, Value::Integer(23)]),
        Value::Mapping(vec![(
            Value::Text("k".to_string()),
            Value::Array(vec![Value::Integer(-1)]),
        )]),
        Value::Tag(4036988077, Box::new(Value::Text("tagged".to_string()))),
    ];
    for v in &samples {
        let ours = encode(v);
        let mut theirs = Vec::new();
        ciborium::ser::into_writer(&to_ciborium(v), &mut theirs).unwrap();
        assert_eq!(ours, theirs, "encoding mismatch for {:?}", v);
    }
}

#[test]
fn decoder_accepts_ciborium_output() {
    let original = Value::Mapping(vec![
        (Value::Text("x".to_string()), Value::Integer(300)),
        (Value::Text("y".to_string()), Value::Bytes(vec![7])),
    ]);
    let mut bytes = Vec::new();
    ciborium::ser::into_writer(&to_ciborium(&original), &mut bytes).unwrap();
    let (back, used) = decode_value(&bytes).unwrap();
    assert_eq!(back, original);
    assert_eq!(used, bytes.len());
}
