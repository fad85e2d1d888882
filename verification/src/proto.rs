//! The protocol's typed message model — method identifiers, correlation
//! ids, call arguments, error values, requests and responses — and the
//! bidirectional conversions between that model and the dynamic value tree.
//!
//! The inbound direction (dynamic value to typed model) validates its input
//! and is fallible; the outbound direction is total. The contracts state
//! both directions exactly over the mathematical models.

use vstd::prelude::*;

use crate::error::ProtocolError;
use crate::value::{int_max, lemma_pairs_model, lemma_seq_model, pairs_model, seq_model, Value,
    ValueModel};

pub mod v0;

verus! {

// ----- Mathematical models --------------------------------------------------
/// Model of a [`MethodID`].
#[verifier::ext_equal]
pub enum MethodIdModel {
    Text(Seq<char>),
    Number(u64),
}

/// Model of a [`RequestID`].
#[verifier::ext_equal]
pub enum RequestIdModel {
    Number(u64),
    Text(Seq<char>),
    Binary(Seq<u8>),
}

/// Model of a [`Params`].
#[verifier::ext_equal]
pub enum ParamsModel {
    Array(Seq<ValueModel>),
    Named(Seq<(Seq<char>, ValueModel)>),
}

/// Model of an [`ErrorValue`].
#[verifier::ext_equal]
pub struct ErrorValueModel {
    pub code: i64,
    pub message: Seq<char>,
    pub data: Option<ValueModel>,
}

/// Model of a [`Request`].
#[verifier::ext_equal]
pub struct RequestModel {
    pub method: MethodIdModel,
    pub params: Option<ParamsModel>,
    pub req_id: Option<RequestIdModel>,
}

/// Model of a [`Response`].
#[verifier::ext_equal]
pub struct ResponseModel {
    pub result: Result<ValueModel, ErrorValueModel>,
    pub req_id: RequestIdModel,
}

// ----- Message types --------------------------------------------------------
/// Methods can be referred to by name or by a numeric id. Equality and
/// hashing are structural.
#[derive(Debug, PartialEq, Eq, Hash)]
pub enum MethodID {
    Text(String),
    Number(u64),
}

/// A RequestID identifies a request so that it can be matched up with its
/// corresponding Response. It is a number, a text string, or an arbitrary
/// byte string. Equality and hashing are structural.
#[derive(Debug, PartialEq, Eq, Hash)]
pub enum RequestID {
    Number(u64),
    Text(String),
    Binary(Vec<u8>),
}

/// The arguments to pass to a remote method: either a positional list or
/// ordered named key-value pairs. One `Params` value is never a mix of the
/// two shapes.
#[derive(Debug, PartialEq)]
pub enum Params {
    Array(Vec<Value>),
    Named(Vec<(String, Value)>),
}

/// Returned by a server when a request does not complete successfully:
/// a numeric code, a message, and optional extra data. The data is omitted
/// entirely from the wire when absent.
#[derive(Debug, PartialEq)]
pub struct ErrorValue {
    pub code: i64,
    pub message: String,
    pub data: Option<Value>,
}

/// A Request: the method to call, the params to pass to it, and an optional
/// correlation id. A request without an id expects no response.
#[derive(Debug, PartialEq)]
pub struct Request {
    pub method: MethodID,
    pub params: Option<Params>,
    pub req_id: Option<RequestID>,
}

/// A Response: exactly one of a success value or an [`ErrorValue`], plus
/// the mandatory correlation id echoed from the request.
#[derive(Debug, PartialEq)]
pub struct Response {
    pub result: Result<Value, ErrorValue>,
    pub req_id: RequestID,
}

// ----- Views ----------------------------------------------------------------
impl View for MethodID {
    type V = MethodIdModel;

    open spec fn view(&self) -> MethodIdModel {
        match self {
            MethodID::Text(s) => MethodIdModel::Text(s@),
            MethodID::Number(n) => MethodIdModel::Number(*n),
        }
    }
}

impl View for RequestID {
    type V = RequestIdModel;

    open spec fn view(&self) -> RequestIdModel {
        match self {
            RequestID::Number(n) => RequestIdModel::Number(*n),
            RequestID::Text(s) => RequestIdModel::Text(s@),
            RequestID::Binary(b) => RequestIdModel::Binary(b@),
        }
    }
}

/// Models of a sequence of named arguments, elementwise.
pub open spec fn named_model(s: Seq<(String, Value)>) -> Seq<(Seq<char>, ValueModel)> {
    Seq::new(s.len(), |i: int| (s[i].0@, s[i].1.model()))
}

impl View for Params {
    type V = ParamsModel;

    open spec fn view(&self) -> ParamsModel {
        match self {
            Params::Array(a) => ParamsModel::Array(seq_model(a@)),
            Params::Named(n) => ParamsModel::Named(named_model(n@)),
        }
    }
}

impl View for ErrorValue {
    type V = ErrorValueModel;

    open spec fn view(&self) -> ErrorValueModel {
        ErrorValueModel {
            code: self.code,
            message: self.message@,
            data: match &self.data {
                Some(v) => Some(v.model()),
                None => None,
            },
        }
    }
}

impl View for Request {
    type V = RequestModel;

    open spec fn view(&self) -> RequestModel {
        RequestModel {
            method: self.method@,
            params: match &self.params {
                Some(p) => Some(p@),
                None => None,
            },
            req_id: match &self.req_id {
                Some(r) => Some(r@),
                None => None,
            },
        }
    }
}

impl View for Response {
    type V = ResponseModel;

    open spec fn view(&self) -> ResponseModel {
        ResponseModel {
            result: match &self.result {
                Ok(v) => Ok(v.model()),
                Err(e) => Err(e@),
            },
            req_id: self.req_id@,
        }
    }
}

// ----- Emptiness and collapsing ---------------------------------------------
impl ParamsModel {
    /// A params value is empty when its positional or named sequence has no
    /// elements.
    pub open spec fn is_empty(self) -> bool {
        match self {
            ParamsModel::Array(a) => a.len() == 0,
            ParamsModel::Named(n) => n.len() == 0,
        }
    }
}

impl Params {
    /// True when this params value holds no arguments.
    pub fn is_empty(&self) -> (r: bool)
        ensures
            r == self@.is_empty(),
    {
        match self {
            Params::Array(v) => v.len() == 0,
            Params::Named(v) => v.len() == 0,
        }
    }

    /// Collapse an empty set of params into `None`, for serialization
    /// economy; non-empty params are kept as they are.
    pub fn into_option(self) -> (r: Option<Params>)
        ensures
            self@.is_empty() ==> r is None,
            !self@.is_empty() ==> r == Some(self),
    {
        if self.is_empty() {
            None
        } else {
            Some(self)
        }
    }
}

// ----- Inbound conversions (dynamic value to typed model) --------------------
/// What converting a dynamic value to params yields: an array converts to
/// positional params, a map with all-text keys converts to named params, a
/// map with any non-text key is rejected with [`ProtocolError::InvalidKeyType`],
/// and every other kind of value is rejected with
/// [`ProtocolError::InvalidParamType`].
pub open spec fn params_of_value(v: ValueModel) -> Result<ParamsModel, ProtocolError> {
    match v {
        ValueModel::Array(a) => Ok(ParamsModel::Array(a)),
        ValueModel::Mapping(m) => if forall|i: int|
            #![trigger m[i]]
            0 <= i < m.len() ==> m[i].0 is Text {
            Ok(ParamsModel::Named(Seq::new(m.len(), |i: int| (m[i].0->Text_0, m[i].1))))
        } else {
            Err(ProtocolError::InvalidKeyType)
        },
        _ => Err(ProtocolError::InvalidParamType),
    }
}

/// What converting a dynamic value to a request id yields: an integer must
/// fit in an unsigned 64-bit number, text and byte strings convert
/// directly, and every other kind of value is rejected. All failures are
/// [`ProtocolError::InvalidRequestID`].
pub open spec fn request_id_of_value(v: ValueModel) -> Result<RequestIdModel, ProtocolError> {
    match v {
        ValueModel::Int(i) => if 0 <= i <= int_max() {
            Ok(RequestIdModel::Number(i as u64))
        } else {
            Err(ProtocolError::InvalidRequestID)
        },
        ValueModel::Text(s) => Ok(RequestIdModel::Text(s)),
        ValueModel::Bytes(b) => Ok(RequestIdModel::Binary(b)),
        _ => Err(ProtocolError::InvalidRequestID),
    }
}

/// What converting a dynamic value to a method id yields: an integer must
/// fit in an unsigned 64-bit number, text converts directly, and every
/// other kind of value is rejected. All failures are
/// [`ProtocolError::InvalidMethodID`].
pub open spec fn method_id_of_value(v: ValueModel) -> Result<MethodIdModel, ProtocolError> {
    match v {
        ValueModel::Int(i) => if 0 <= i <= int_max() {
            Ok(MethodIdModel::Number(i as u64))
        } else {
            Err(ProtocolError::InvalidMethodID)
        },
        ValueModel::Text(s) => Ok(MethodIdModel::Text(s)),
        _ => Err(ProtocolError::InvalidMethodID),
    }
}

impl Params {
    /// Convert a dynamic value to params, validating it: the result is
    /// exactly [`params_of_value`] of the value's model.
    #[verifier::loop_isolation(false)]
    pub fn from_value(value: Value) -> (r: Result<Params, ProtocolError>)
        ensures
            match r {
                Ok(p) => params_of_value(value@) == Ok::<ParamsModel, ProtocolError>(p@),
                Err(e) => params_of_value(value@) == Err::<ParamsModel, ProtocolError>(e),
            },
    {
        match value {
            Value::Array(a) => Ok(Params::Array(a)),
            Value::Mapping(m) => {
                proof {
                    lemma_pairs_model(m@);
                }
                let mut out: Vec<(String, Value)> = Vec::new();
                let mut k: usize = 0;
                while k < m.len()
                    invariant
                        0 <= k <= m@.len(),
                        out@.len() == k,
                        forall|i: int| #![trigger m@[i]] 0 <= i < k ==> m@[i].0.model() is Text,
                        forall|i: int|
                            #![trigger out@[i]]
                            0 <= i < k ==> out@[i].0@ == m@[i].0.model()->Text_0
                                && out@[i].1.model() == m@[i].1.model(),
                    decreases m@.len() - k,
                {
                    let pair = &m[k];
                    match &pair.0 {
                        Value::Text(s) => {
                            let key = s.clone();
                            let val = pair.1.clone();
                            out.push((key, val));
                        },
                        _ => {
                            proof {
                                assert(!(pairs_model(m@)[k as int].0 is Text));
                            }
                            return Err(ProtocolError::InvalidKeyType);
                        },
                    }
                    k = k + 1;
                }
                proof {
                    let pm = pairs_model(m@);
                    assert forall|i: int| #![trigger pm[i]] 0 <= i < pm.len() implies pm[i].0
                        is Text by {
                        assert(pm[i] == (m@[i].0.model(), m@[i].1.model()));
                    }
                    let expect = Seq::new(pm.len(), |i: int| (pm[i].0->Text_0, pm[i].1));
                    assert forall|i: int| 0 <= i < pm.len() implies #[trigger] named_model(out@)[i]
                        == expect[i] by {
                        assert(pm[i] == (m@[i].0.model(), m@[i].1.model()));
                    }
                    assert(named_model(out@) =~= expect);
                }
                Ok(Params::Named(out))
            },
            _ => Err(ProtocolError::InvalidParamType),
        }
    }
}

impl RequestID {
    /// Convert a dynamic value to a request id, validating it: the result
    /// is exactly [`request_id_of_value`] of the value's model.
    pub fn from_value(value: Value) -> (r: Result<RequestID, ProtocolError>)
        ensures
            match r {
                Ok(id) => request_id_of_value(value@) == Ok::<RequestIdModel, ProtocolError>(id@),
                Err(e) => request_id_of_value(value@) == Err::<RequestIdModel, ProtocolError>(e),
            },
    {
        match value {
            Value::Integer(i) => if 0 <= i && i <= 0xffff_ffff_ffff_ffffi128 {
                Ok(RequestID::Number(i as u64))
            } else {
                Err(ProtocolError::InvalidRequestID)
            },
            Value::Text(s) => Ok(RequestID::Text(s)),
            Value::Bytes(b) => Ok(RequestID::Binary(b)),
            _ => Err(ProtocolError::InvalidRequestID),
        }
    }
}

impl MethodID {
    /// Convert a dynamic value to a method id, validating it: the result is
    /// exactly [`method_id_of_value`] of the value's model.
    pub fn from_value(value: Value) -> (r: Result<MethodID, ProtocolError>)
        ensures
            match r {
                Ok(id) => method_id_of_value(value@) == Ok::<MethodIdModel, ProtocolError>(id@),
                Err(e) => method_id_of_value(value@) == Err::<MethodIdModel, ProtocolError>(e),
            },
    {
        match value {
            Value::Integer(i) => if 0 <= i && i <= 0xffff_ffff_ffff_ffffi128 {
                Ok(MethodID::Number(i as u64))
            } else {
                Err(ProtocolError::InvalidMethodID)
            },
            Value::Text(s) => Ok(MethodID::Text(s)),
            _ => Err(ProtocolError::InvalidMethodID),
        }
    }
}

// ----- Outbound conversions (typed model to dynamic value) -------------------
/// The canonical dynamic-value representation of params. Total: every
/// params value has exactly one representation.
pub open spec fn params_as_value(p: ParamsModel) -> ValueModel {
    match p {
        ParamsModel::Array(a) => ValueModel::Array(a),
        ParamsModel::Named(n) => ValueModel::Mapping(
            Seq::new(n.len(), |i: int| (ValueModel::Text(n[i].0), n[i].1)),
        ),
    }
}

/// The canonical dynamic-value representation of a request id.
pub open spec fn request_id_as_value(r: RequestIdModel) -> ValueModel {
    match r {
        RequestIdModel::Number(n) => ValueModel::Int(n as int),
        RequestIdModel::Text(s) => ValueModel::Text(s),
        RequestIdModel::Binary(b) => ValueModel::Bytes(b),
    }
}

/// The canonical dynamic-value representation of a method id.
pub open spec fn method_id_as_value(m: MethodIdModel) -> ValueModel {
    match m {
        MethodIdModel::Number(n) => ValueModel::Int(n as int),
        MethodIdModel::Text(s) => ValueModel::Text(s),
    }
}

impl Params {
    /// The canonical dynamic-value representation of these params; never
    /// fails.
    #[verifier::loop_isolation(false)]
    pub fn into_value(self) -> (r: Value)
        ensures
            r@ == params_as_value(self@),
    {
        match self {
            Params::Array(a) => Value::Array(a),
            Params::Named(n) => {
                let mut out: Vec<(Value, Value)> = Vec::new();
                let mut k: usize = 0;
                while k < n.len()
                    invariant
                        0 <= k <= n@.len(),
                        out@.len() == k,
                        forall|i: int|
                            #![trigger out@[i]]
                            0 <= i < k ==> out@[i].0.model() == ValueModel::Text(n@[i].0@)
                                && out@[i].1.model() == n@[i].1.model(),
                    decreases n@.len() - k,
                {
                    let pair = &n[k];
                    out.push((Value::Text(pair.0.clone()), pair.1.clone()));
                    k = k + 1;
                }
                proof {
                    lemma_pairs_model(out@);
                    let nm = named_model(n@);
                    let expect = Seq::new(nm.len(), |i: int| (ValueModel::Text(nm[i].0), nm[i].1));
                    assert forall|i: int| 0 <= i < nm.len() implies #[trigger] pairs_model(out@)[i]
                        == expect[i] by {
                        assert(pairs_model(out@)[i] == (out@[i].0.model(), out@[i].1.model()));
                    }
                    assert(pairs_model(out@) =~= expect);
                }
                Value::Mapping(out)
            },
        }
    }
}

impl RequestID {
    /// The canonical dynamic-value representation of this request id; never
    /// fails.
    pub fn into_value(self) -> (r: Value)
        ensures
            r@ == request_id_as_value(self@),
    {
        match self {
            RequestID::Number(n) => Value::Integer(n as i128),
            RequestID::Text(s) => Value::Text(s),
            RequestID::Binary(b) => Value::Bytes(b),
        }
    }
}

impl MethodID {
    /// The canonical dynamic-value representation of this method id; never
    /// fails.
    pub fn into_value(self) -> (r: Value)
        ensures
            r@ == method_id_as_value(self@),
    {
        match self {
            MethodID::Number(n) => Value::Integer(n as i128),
            MethodID::Text(s) => Value::Text(s),
        }
    }
}

// ----- Getters ---------------------------------------------------------------
impl ErrorValue {
    pub fn code(&self) -> (r: &i64)
        ensures
            *r == self.code,
    {
        &self.code
    }

    pub fn message(&self) -> (r: &String)
        ensures
            *r == self.message,
    {
        &self.message
    }

    pub fn data(&self) -> (r: &Option<Value>)
        ensures
            *r == self.data,
    {
        &self.data
    }
}

impl Request {
    pub fn method(&self) -> (r: &MethodID)
        ensures
            *r == self.method,
    {
        &self.method
    }

    pub fn params(&self) -> (r: &Option<Params>)
        ensures
            *r == self.params,
    {
        &self.params
    }

    pub fn req_id(&self) -> (r: &Option<RequestID>)
        ensures
            *r == self.req_id,
    {
        &self.req_id
    }
}

impl Response {
    pub fn result(&self) -> (r: &Result<Value, ErrorValue>)
        ensures
            *r == self.result,
    {
        &self.result
    }

    pub fn req_id(&self) -> (r: &RequestID)
        ensures
            *r == self.req_id,
    {
        &self.req_id
    }
}

// ----- Clones ----------------------------------------------------------------
impl Clone for MethodID {
    /// A clone has the same model as the original.
    fn clone(&self) -> (res: Self)
        ensures
            res@ == self@,
    {
        match self {
            MethodID::Text(s) => MethodID::Text(s.clone()),
            MethodID::Number(n) => MethodID::Number(*n),
        }
    }
}

impl Clone for RequestID {
    /// A clone has the same model as the original.
    fn clone(&self) -> (res: Self)
        ensures
            res@ == self@,
    {
        match self {
            RequestID::Number(n) => RequestID::Number(*n),
            RequestID::Text(s) => RequestID::Text(s.clone()),
            RequestID::Binary(b) => {
                let c = b.clone();
                assert(c@ =~= b@);
                RequestID::Binary(c)
            },
        }
    }
}

impl Clone for Params {
    /// A clone has the same model as the original.
    #[verifier::loop_isolation(false)]
    fn clone(&self) -> (res: Self)
        ensures
            res@ == self@,
    {
        match self {
            Params::Array(a) => {
                let mut out: Vec<Value> = Vec::new();
                let mut k: usize = 0;
                while k < a.len()
                    invariant
                        0 <= k <= a@.len(),
                        out@.len() == k,
                        forall|i: int| 0 <= i < k ==> #[trigger] out@[i].model() == a@[i].model(),
                    decreases a@.len() - k,
                {
                    out.push(a[k].clone());
                    k = k + 1;
                }
                proof {
                    lemma_seq_model(a@);
                    lemma_seq_model(out@);
                    assert(seq_model(out@) =~= seq_model(a@));
                }
                Params::Array(out)
            },
            Params::Named(n) => {
                let mut out: Vec<(String, Value)> = Vec::new();
                let mut k: usize = 0;
                while k < n.len()
                    invariant
                        0 <= k <= n@.len(),
                        out@.len() == k,
                        forall|i: int|
                            #![trigger out@[i]]
                            0 <= i < k ==> out@[i].0@ == n@[i].0@ && out@[i].1.model()
                                == n@[i].1.model(),
                    decreases n@.len() - k,
                {
                    let pair = &n[k];
                    out.push((pair.0.clone(), pair.1.clone()));
                    k = k + 1;
                }
                proof {
                    assert(named_model(out@) =~= named_model(n@));
                }
                Params::Named(out)
            },
        }
    }
}

impl Clone for ErrorValue {
    /// A clone has the same model as the original.
    fn clone(&self) -> (res: Self)
        ensures
            res@ == self@,
    {
        ErrorValue {
            code: self.code,
            message: self.message.clone(),
            data: match &self.data {
                Some(v) => Some(v.clone()),
                None => None,
            },
        }
    }
}

impl Clone for Request {
    /// A clone has the same model as the original.
    fn clone(&self) -> (res: Self)
        ensures
            res@ == self@,
    {
        Request {
            method: self.method.clone(),
            params: match &self.params {
                Some(p) => Some(p.clone()),
                None => None,
            },
            req_id: match &self.req_id {
                Some(r) => Some(r.clone()),
                None => None,
            },
        }
    }
}

impl Clone for Response {
    /// A clone has the same model as the original.
    fn clone(&self) -> (res: Self)
        ensures
            res@ == self@,
    {
        Response {
            result: match &self.result {
                Ok(v) => Ok(v.clone()),
                Err(e) => Err(e.clone()),
            },
            req_id: self.req_id.clone(),
        }
    }
}

} // verus!
