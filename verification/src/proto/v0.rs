//! Version 0 of the wire framing protocol.
//!
//! Every message is wrapped in a mandatory tag ([`TAG_ID_RPCV0`]) applied to
//! an untagged sum of the two message shapes, both maps with text keys:
//!
//! - a Request is `{"fn": MethodID, "args": Params, "id": RequestID}`, where
//!   `args` and `id` may be omitted;
//! - a Response is `{"ok": Value, "id": RequestID}` or
//!   `{"err": ErrorValue, "id": RequestID}` — exactly one of `ok`/`err`, and
//!   `id` is mandatory;
//! - an ErrorValue is `{"code": int, "message": text, "data": Value}`, where
//!   `data` may be omitted.
//!
//! The two shapes are told apart structurally: a request map must hold `fn`,
//! which a response map may not, and a response map must hold `ok` or `err`,
//! which a request map may not. Decoding validates the shape exactly — a
//! missing or different tag, an unknown or duplicate key, or an invalid
//! field value makes the whole value unrecognizable as a message. The
//! rejection of unknown keys is deliberate (some decoders skip unknown
//! fields instead): it keeps the two key sets disjoint under any future
//! field additions, the invariant the disambiguation rests on.

use vstd::prelude::*;

use crate::codec::{dec, decode_value, enc, encode_value, DecodeFail, DECODE_DEPTH_LIMIT};
use crate::error::{ProtocolError, TransportError};
use crate::proto::{method_id_as_value, method_id_of_value, params_as_value, params_of_value,
    request_id_as_value, request_id_of_value, ErrorValue, ErrorValueModel, MethodIdModel,
    ParamsModel, Request, RequestIdModel, RequestModel, Response, ResponseModel};
use crate::value::{pairs_model, Value, ValueModel};

verus! {

/// Magic number / tag id identifying a wire frame as an RPC v0 message.
pub const TAG_ID_RPCV0: u64 = 4036988077;

/// A well-formed RPC message: a request or a response.
#[derive(Debug, PartialEq)]
pub enum Msg {
    Request(Request),
    Response(Response),
}

/// Model of a [`Msg`].
#[verifier::ext_equal]
pub enum MsgModel {
    Request(RequestModel),
    Response(ResponseModel),
}

/// The toplevel message type of this protocol version: a request or a
/// response, framed under the [`TAG_ID_RPCV0`] tag on the wire.
#[derive(Debug, PartialEq)]
pub struct RPCMsg(pub Msg);

impl View for Msg {
    type V = MsgModel;

    open spec fn view(&self) -> MsgModel {
        match self {
            Msg::Request(r) => MsgModel::Request(r@),
            Msg::Response(r) => MsgModel::Response(r@),
        }
    }
}

impl View for RPCMsg {
    type V = MsgModel;

    open spec fn view(&self) -> MsgModel {
        self.0@
    }
}

// ----- The wire keys ----------------------------------------------------------
pub open spec fn k_fn() -> Seq<char> {
    "fn"@
}

pub open spec fn k_args() -> Seq<char> {
    "args"@
}

pub open spec fn k_id() -> Seq<char> {
    "id"@
}

pub open spec fn k_ok() -> Seq<char> {
    "ok"@
}

pub open spec fn k_err() -> Seq<char> {
    "err"@
}

pub open spec fn k_code() -> Seq<char> {
    "code"@
}

pub open spec fn k_message() -> Seq<char> {
    "message"@
}

pub open spec fn k_data() -> Seq<char> {
    "data"@
}

/// The eight wire keys are pairwise distinct.
pub proof fn lemma_keys_distinct()
    ensures
        k_fn() != k_args(),
        k_fn() != k_id(),
        k_args() != k_id(),
        k_ok() != k_err(),
        k_ok() != k_id(),
        k_err() != k_id(),
        k_code() != k_message(),
        k_code() != k_data(),
        k_message() != k_data(),
        k_fn() != k_ok(),
        k_fn() != k_err(),
        k_args() != k_ok(),
        k_args() != k_err(),
        k_id() != k_ok(),
        k_id() != k_err(),
{
    reveal_strlit("fn");
    reveal_strlit("args");
    reveal_strlit("id");
    reveal_strlit("ok");
    reveal_strlit("err");
    reveal_strlit("code");
    reveal_strlit("message");
    reveal_strlit("data");
    assert(k_fn().len() == 2 && k_args().len() == 4 && k_id().len() == 2 && k_ok().len() == 2
        && k_err().len() == 3 && k_code().len() == 4 && k_message().len() == 7 && k_data().len()
        == 4);
    assert(k_fn()[0] == 'f' && k_id()[0] == 'i' && k_ok()[0] == 'o' && k_args()[0] == 'a'
        && k_code()[0] == 'c' && k_data()[0] == 'd');
}

// ----- Outbound framing (typed message to dynamic value) ----------------------
/// The wire map of an error value: `code` and `message`, plus `data` only
/// when present.
pub open spec fn error_value_as_value(e: ErrorValueModel) -> ValueModel {
    match e.data {
        Some(d) => ValueModel::Mapping(
            seq![
                (ValueModel::Text(k_code()), ValueModel::Int(e.code as int)),
                (ValueModel::Text(k_message()), ValueModel::Text(e.message)),
                (ValueModel::Text(k_data()), d),
            ],
        ),
        None => ValueModel::Mapping(
            seq![
                (ValueModel::Text(k_code()), ValueModel::Int(e.code as int)),
                (ValueModel::Text(k_message()), ValueModel::Text(e.message)),
            ],
        ),
    }
}

/// The wire map of a request: `fn`, then `args` and `id` when present.
pub open spec fn request_fields(r: RequestModel) -> Seq<(ValueModel, ValueModel)> {
    let base = seq![(ValueModel::Text(k_fn()), method_id_as_value(r.method))];
    let with_args = match r.params {
        Some(p) => base.push((ValueModel::Text(k_args()), params_as_value(p))),
        None => base,
    };
    match r.req_id {
        Some(id) => with_args.push((ValueModel::Text(k_id()), request_id_as_value(id))),
        None => with_args,
    }
}

/// The wire value of a request (before tagging).
pub open spec fn request_as_value(r: RequestModel) -> ValueModel {
    ValueModel::Mapping(request_fields(r))
}

/// The wire value of a response (before tagging): one of `ok`/`err`, then
/// the mandatory `id`.
pub open spec fn response_as_value(r: ResponseModel) -> ValueModel {
    let payload = match r.result {
        Ok(v) => (ValueModel::Text(k_ok()), v),
        Err(e) => (ValueModel::Text(k_err()), error_value_as_value(e)),
    };
    ValueModel::Mapping(seq![payload, (ValueModel::Text(k_id()), request_id_as_value(r.req_id))])
}

/// The complete wire value of a message: the tagged envelope.
pub open spec fn msg_as_value(m: MsgModel) -> ValueModel {
    ValueModel::Tag(
        TAG_ID_RPCV0,
        Box::new(
            match m {
                MsgModel::Request(r) => request_as_value(r),
                MsgModel::Response(r) => response_as_value(r),
            },
        ),
    )
}

/// The complete wire bytes of a message.
pub open spec fn msg_enc(m: MsgModel) -> Seq<u8> {
    enc(msg_as_value(m))
}

// ----- Inbound framing (dynamic value to typed message) -----------------------
/// The value under the first occurrence of text key `k` in `m`.
pub open spec fn find_key(m: Seq<(ValueModel, ValueModel)>, k: Seq<char>) -> Option<ValueModel>
    decreases m,
{
    if m.len() == 0 {
        None
    } else if m[0].0 == ValueModel::Text(k) {
        Some(m[0].1)
    } else {
        find_key(m.drop_first(), k)
    }
}

/// No two entries of `m` share a key.
pub open spec fn no_dup_keys(m: Seq<(ValueModel, ValueModel)>) -> bool {
    forall|i: int, j: int| 0 <= i < j < m.len() ==> (#[trigger] m[i]).0 != (#[trigger] m[j]).0
}

/// The shape of a request map: only the keys `fn`, `args`, `id`, each at
/// most once, and `fn` present.
pub open spec fn is_req_map(m: Seq<(ValueModel, ValueModel)>) -> bool {
    &&& forall|i: int|
        0 <= i < m.len() ==> ((#[trigger] m[i]).0 == ValueModel::Text(k_fn()) || m[i].0
            == ValueModel::Text(k_args()) || m[i].0 == ValueModel::Text(k_id()))
    &&& no_dup_keys(m)
    &&& find_key(m, k_fn()) is Some
}

/// The shape of a response map: only the keys `ok`, `err`, `id`, each at
/// most once, `id` present, and exactly one of `ok`/`err` present.
pub open spec fn is_resp_map(m: Seq<(ValueModel, ValueModel)>) -> bool {
    &&& forall|i: int|
        0 <= i < m.len() ==> ((#[trigger] m[i]).0 == ValueModel::Text(k_ok()) || m[i].0
            == ValueModel::Text(k_err()) || m[i].0 == ValueModel::Text(k_id()))
    &&& no_dup_keys(m)
    &&& find_key(m, k_id()) is Some
    &&& (find_key(m, k_ok()) is Some <==> find_key(m, k_err()) is None)
}

/// The shape of an error-value map: only the keys `code`, `message`,
/// `data`, each at most once, with a mandatory in-range integer `code` and
/// mandatory text `message`.
pub open spec fn error_of_value(v: ValueModel) -> Option<ErrorValueModel> {
    match v {
        ValueModel::Mapping(m) => if {
            &&& forall|i: int|
                0 <= i < m.len() ==> ((#[trigger] m[i]).0 == ValueModel::Text(k_code()) || m[i].0
                    == ValueModel::Text(k_message()) || m[i].0 == ValueModel::Text(k_data()))
            &&& no_dup_keys(m)
            &&& (match find_key(m, k_code()) {
                Some(cv) => cv is Int && i64::MIN <= cv->Int_0 <= i64::MAX,
                None => false,
            })
            &&& (match find_key(m, k_message()) {
                Some(mv) => mv is Text,
                None => false,
            })
        } {
            Some(
                ErrorValueModel {
                    code: find_key(m, k_code())->0->Int_0 as i64,
                    message: find_key(m, k_message())->0->Text_0,
                    data: find_key(m, k_data()),
                },
            )
        } else {
            None
        },
        _ => None,
    }
}

/// The typed request a request-shaped map holds, when each field value is
/// valid.
pub open spec fn request_of_map(m: Seq<(ValueModel, ValueModel)>) -> Option<RequestModel> {
    if is_req_map(m) && method_id_of_value(find_key(m, k_fn())->0) is Ok && (match find_key(
        m,
        k_args(),
    ) {
        Some(pv) => params_of_value(pv) is Ok,
        None => true,
    }) && (match find_key(m, k_id()) {
        Some(iv) => request_id_of_value(iv) is Ok,
        None => true,
    }) {
        Some(
            RequestModel {
                method: method_id_of_value(find_key(m, k_fn())->0)->Ok_0,
                params: match find_key(m, k_args()) {
                    Some(pv) => Some(params_of_value(pv)->Ok_0),
                    None => None,
                },
                req_id: match find_key(m, k_id()) {
                    Some(iv) => Some(request_id_of_value(iv)->Ok_0),
                    None => None,
                },
            },
        )
    } else {
        None
    }
}

/// The typed response a response-shaped map holds, when each field value
/// is valid.
pub open spec fn response_of_map(m: Seq<(ValueModel, ValueModel)>) -> Option<ResponseModel> {
    if is_resp_map(m) && request_id_of_value(find_key(m, k_id())->0) is Ok && (match find_key(
        m,
        k_err(),
    ) {
        Some(ev) => error_of_value(ev) is Some,
        None => true,
    }) {
        Some(
            ResponseModel {
                result: match find_key(m, k_ok()) {
                    Some(v) => Ok(v),
                    None => Err(error_of_value(find_key(m, k_err())->0)->0),
                },
                req_id: request_id_of_value(find_key(m, k_id())->0)->Ok_0,
            },
        )
    } else {
        None
    }
}

/// The message a dynamic value holds: the value must be tagged with
/// exactly [`TAG_ID_RPCV0`] over a map, and the map must match the request
/// shape or else the response shape. Anything else is not a message.
pub open spec fn msg_of_value(v: ValueModel) -> Option<MsgModel> {
    match v {
        ValueModel::Tag(t, inner) => if t == TAG_ID_RPCV0 {
            match *inner {
                ValueModel::Mapping(m) => match request_of_map(m) {
                    Some(r) => Some(MsgModel::Request(r)),
                    None => match response_of_map(m) {
                        Some(r) => Some(MsgModel::Response(r)),
                        None => None,
                    },
                },
                _ => None,
            }
        } else {
            None
        },
        _ => None,
    }
}

/// Reading one message from the front of a byte sequence: decode one
/// dynamic value and recognize it as a message.
pub open spec fn msg_dec(bytes: Seq<u8>) -> Option<(MsgModel, nat)> {
    match dec(bytes, DECODE_DEPTH_LIMIT as nat) {
        Some((v, used)) => match msg_of_value(v) {
            Some(m) => Some((m, used)),
            None => None,
        },
        None => None,
    }
}

// ----- Round-trip and framing laws --------------------------------------------
/// Converting a method id to a value and back yields it unchanged.
proof fn lemma_method_id_value_round_trip(m: MethodIdModel)
    ensures
        method_id_of_value(method_id_as_value(m)) == Ok::<MethodIdModel, ProtocolError>(m),
{
}

/// Converting a request id to a value and back yields it unchanged.
proof fn lemma_request_id_value_round_trip(r: RequestIdModel)
    ensures
        request_id_of_value(request_id_as_value(r)) == Ok::<RequestIdModel, ProtocolError>(r),
{
}

/// Converting params to a value and back yields them unchanged.
proof fn lemma_params_value_round_trip(p: ParamsModel)
    ensures
        params_of_value(params_as_value(p)) == Ok::<ParamsModel, ProtocolError>(p),
{
    match p {
        ParamsModel::Array(_) => {
        },
        ParamsModel::Named(n) => {
            let m = Seq::new(n.len(), |i: int| (ValueModel::Text(n[i].0), n[i].1));
            assert(forall|i: int| 0 <= i < m.len() ==> (#[trigger] m[i]).0 is Text);
            let back = Seq::new(m.len(), |i: int| (m[i].0->Text_0, m[i].1));
            assert(back =~= n);
        },
    }
}

/// Converting an error value to its wire map and back yields it unchanged.
proof fn lemma_error_value_round_trip(e: ErrorValueModel)
    ensures
        error_of_value(error_value_as_value(e)) == Some(e),
{
    lemma_keys_distinct();
    reveal_with_fuel(find_key, 5);
    match e.data {
        Some(d) => {
            let m = seq![
                (ValueModel::Text(k_code()), ValueModel::Int(e.code as int)),
                (ValueModel::Text(k_message()), ValueModel::Text(e.message)),
                (ValueModel::Text(k_data()), d),
            ];
            assert(m.drop_first() =~= seq![
                (ValueModel::Text(k_message()), ValueModel::Text(e.message)),
                (ValueModel::Text(k_data()), d),
            ]);
            assert(m.drop_first().drop_first() =~= seq![(ValueModel::Text(k_data()), d)]);
            assert(find_key(m, k_code()) == Some(ValueModel::Int(e.code as int)));
            assert(find_key(m, k_message()) == Some(ValueModel::Text(e.message)));
            assert(find_key(m, k_data()) == Some(d));
            assert(error_of_value(error_value_as_value(e))->0 =~= e);
        },
        None => {
            let m = seq![
                (ValueModel::Text(k_code()), ValueModel::Int(e.code as int)),
                (ValueModel::Text(k_message()), ValueModel::Text(e.message)),
            ];
            assert(m.drop_first() =~= seq![
                (ValueModel::Text(k_message()), ValueModel::Text(e.message)),
            ]);
            assert(m.drop_first().drop_first() =~= Seq::<(ValueModel, ValueModel)>::empty());
            assert(find_key(m, k_code()) == Some(ValueModel::Int(e.code as int)));
            assert(find_key(m, k_message()) == Some(ValueModel::Text(e.message)));
            assert(find_key(m, k_data()) is None);
            assert(error_of_value(error_value_as_value(e))->0 =~= e);
        },
    }
}

/// The fields of an encoded request form a request-shaped map holding
/// exactly the request's fields.
proof fn lemma_request_fields(r: RequestModel)
    ensures
        is_req_map(request_fields(r)),
        find_key(request_fields(r), k_fn()) == Some(method_id_as_value(r.method)),
        find_key(request_fields(r), k_args()) == (match r.params {
            Some(p) => Some(params_as_value(p)),
            None => None::<ValueModel>,
        }),
        find_key(request_fields(r), k_id()) == (match r.req_id {
            Some(id) => Some(request_id_as_value(id)),
            None => None::<ValueModel>,
        }),
{
    lemma_keys_distinct();
    reveal_with_fuel(find_key, 5);
    let f = request_fields(r);
    let e_fn = (ValueModel::Text(k_fn()), method_id_as_value(r.method));
    match (r.params, r.req_id) {
        (Some(p), Some(id)) => {
            let e_args = (ValueModel::Text(k_args()), params_as_value(p));
            let e_id = (ValueModel::Text(k_id()), request_id_as_value(id));
            assert(f =~= seq![e_fn, e_args, e_id]);
            assert(f.drop_first() =~= seq![e_args, e_id]);
            assert(f.drop_first().drop_first() =~= seq![e_id]);
            assert(f.drop_first().drop_first().drop_first() =~= Seq::<(
                ValueModel,
                ValueModel,
            )>::empty());
        },
        (Some(p), None) => {
            let e_args = (ValueModel::Text(k_args()), params_as_value(p));
            assert(f =~= seq![e_fn, e_args]);
            assert(f.drop_first() =~= seq![e_args]);
            assert(f.drop_first().drop_first() =~= Seq::<(ValueModel, ValueModel)>::empty());
        },
        (None, Some(id)) => {
            let e_id = (ValueModel::Text(k_id()), request_id_as_value(id));
            assert(f =~= seq![e_fn, e_id]);
            assert(f.drop_first() =~= seq![e_id]);
            assert(f.drop_first().drop_first() =~= Seq::<(ValueModel, ValueModel)>::empty());
        },
        (None, None) => {
            assert(f =~= seq![e_fn]);
            assert(f.drop_first() =~= Seq::<(ValueModel, ValueModel)>::empty());
        },
    }
}

/// An encoded request's map converts back to exactly that request.
proof fn lemma_request_map_round_trip(r: RequestModel)
    ensures
        request_of_map(request_fields(r)) == Some(r),
{
    lemma_request_fields(r);
    lemma_method_id_value_round_trip(r.method);
    if r.params is Some {
        lemma_params_value_round_trip(r.params->0);
    }
    if r.req_id is Some {
        lemma_request_id_value_round_trip(r.req_id->0);
    }
    assert(request_of_map(request_fields(r))->0 =~= r);
}

/// An encoded response's map is not request-shaped, and converts back to
/// exactly that response.
proof fn lemma_response_map_round_trip(r: ResponseModel)
    ensures
        request_of_map(response_as_value(r)->Mapping_0) is None,
        response_of_map(response_as_value(r)->Mapping_0) == Some(r),
{
    lemma_keys_distinct();
    reveal_with_fuel(find_key, 5);
    let payload = match r.result {
        Ok(v) => (ValueModel::Text(k_ok()), v),
        Err(e) => (ValueModel::Text(k_err()), error_value_as_value(e)),
    };
    let e_id = (ValueModel::Text(k_id()), request_id_as_value(r.req_id));
    let m = response_as_value(r)->Mapping_0;
    assert(m =~= seq![payload, e_id]);
    assert(m.drop_first() =~= seq![e_id]);
    assert(m.drop_first().drop_first() =~= Seq::<(ValueModel, ValueModel)>::empty());
    assert(find_key(m, k_fn()) is None);
    assert(!is_req_map(m));
    assert(find_key(m, k_id()) == Some(request_id_as_value(r.req_id)));
    lemma_request_id_value_round_trip(r.req_id);
    match r.result {
        Ok(v) => {
            assert(find_key(m, k_ok()) == Some(v));
            assert(find_key(m, k_err()) is None);
        },
        Err(e) => {
            assert(find_key(m, k_err()) == Some(error_value_as_value(e)));
            assert(find_key(m, k_ok()) is None);
            lemma_error_value_round_trip(e);
        },
    }
    assert(response_of_map(m)->0 =~= r);
}

/// Framing a message as a dynamic value and recognizing it back yields the
/// message unchanged, for every message.
pub proof fn lemma_msg_value_round_trip(m: MsgModel)
    ensures
        msg_of_value(msg_as_value(m)) == Some(m),
{
    match m {
        MsgModel::Request(r) => {
            lemma_request_map_round_trip(r);
        },
        MsgModel::Response(r) => {
            lemma_response_map_round_trip(r);
        },
    }
}

/// Round trip through the wire bytes: for any request whose dynamic value
/// is well-formed and nested within the decoder's depth limit, and whatever
/// bytes follow the frame, encode-then-decode yields the request back and
/// consumes exactly the frame.
pub proof fn lemma_request_round_trip(r: RequestModel, rest: Seq<u8>)
    requires
        msg_as_value(MsgModel::Request(r)).wf(),
        msg_as_value(MsgModel::Request(r)).depth() <= DECODE_DEPTH_LIMIT,
    ensures
        msg_dec(msg_enc(MsgModel::Request(r)) + rest) == Some(
            (MsgModel::Request(r), msg_enc(MsgModel::Request(r)).len()),
        ),
{
    crate::codec::lemma_round_trip(
        msg_as_value(MsgModel::Request(r)),
        rest,
        DECODE_DEPTH_LIMIT as nat,
    );
    lemma_msg_value_round_trip(MsgModel::Request(r));
}

/// Round trip through the wire bytes for responses: both a success and an
/// error response (with or without error data) decode back to themselves.
pub proof fn lemma_response_round_trip(r: ResponseModel, rest: Seq<u8>)
    requires
        msg_as_value(MsgModel::Response(r)).wf(),
        msg_as_value(MsgModel::Response(r)).depth() <= DECODE_DEPTH_LIMIT,
    ensures
        msg_dec(msg_enc(MsgModel::Response(r)) + rest) == Some(
            (MsgModel::Response(r), msg_enc(MsgModel::Response(r)).len()),
        ),
{
    crate::codec::lemma_round_trip(
        msg_as_value(MsgModel::Response(r)),
        rest,
        DECODE_DEPTH_LIMIT as nat,
    );
    lemma_msg_value_round_trip(MsgModel::Response(r));
}

/// Disambiguation: the bytes of an encoded request always decode to a
/// request message and never to a response, and the other way round — so
/// asking for the wrong kind is answered by
/// [`ProtocolError::UnexpectedMessage`] from the projections
/// ([`RPCMsg::into_request`], [`RPCMsg::into_response`]), never by a
/// spurious success.
pub proof fn lemma_disambiguation(r: RequestModel, p: ResponseModel, rest: Seq<u8>)
    requires
        msg_as_value(MsgModel::Request(r)).wf(),
        msg_as_value(MsgModel::Request(r)).depth() <= DECODE_DEPTH_LIMIT,
        msg_as_value(MsgModel::Response(p)).wf(),
        msg_as_value(MsgModel::Response(p)).depth() <= DECODE_DEPTH_LIMIT,
    ensures
        msg_dec(msg_enc(MsgModel::Request(r)) + rest) is Some && (msg_dec(
            msg_enc(MsgModel::Request(r)) + rest,
        )->0).0 is Request,
        msg_dec(msg_enc(MsgModel::Response(p)) + rest) is Some && (msg_dec(
            msg_enc(MsgModel::Response(p)) + rest,
        )->0).0 is Response,
{
    lemma_request_round_trip(r, rest);
    lemma_response_round_trip(p, rest);
}

/// Tag enforcement: a dynamic value that is not tagged with exactly
/// [`TAG_ID_RPCV0`] is never recognized as a message.
pub proof fn lemma_tag_enforcement(v: ValueModel)
    requires
        !(v is Tag && v->Tag_0 == TAG_ID_RPCV0),
    ensures
        msg_of_value(v) is None,
{
}

/// Empty-params collapse: a request built with empty params, after
/// collapsing them (see [`crate::proto::Params::into_option`]), encodes
/// identically to a request built with no params at all.
pub proof fn lemma_empty_params_collapse(
    method: MethodIdModel,
    req_id: Option<RequestIdModel>,
    p: ParamsModel,
)
    requires
        p.is_empty(),
    ensures
        msg_enc(
            MsgModel::Request(
                RequestModel {
                    method,
                    params: if p.is_empty() {
                        None
                    } else {
                        Some(p)
                    },
                    req_id,
                },
            ),
        ) == msg_enc(MsgModel::Request(RequestModel { method, params: None, req_id })),
{
}

// ----- find_key facts for the executable parsers -------------------------------
/// Appending a pair extends a key search: an earlier hit stays, otherwise
/// the new pair decides.
#[verifier::rlimit(50)]
proof fn lemma_find_key_push(m: Seq<(ValueModel, ValueModel)>, p: (ValueModel, ValueModel), k: Seq<char>)
    ensures
        find_key(m.push(p), k) == (if find_key(m, k) is Some {
            find_key(m, k)
        } else if p.0 == ValueModel::Text(k) {
            Some(p.1)
        } else {
            None
        }),
    decreases m,
{
    reveal_with_fuel(find_key, 3);
    let e = m.push(p);
    if m.len() == 0 {
        assert(e[0] == p);
        assert(e.drop_first() =~= Seq::<(ValueModel, ValueModel)>::empty());
    } else {
        assert(e[0] == m[0]);
        assert(e.drop_first() =~= m.drop_first().push(p));
        lemma_find_key_push(m.drop_first(), p, k);
    }
}

/// A found key occurs in the map with the found value.
proof fn lemma_find_key_exists(m: Seq<(ValueModel, ValueModel)>, k: Seq<char>)
    requires
        find_key(m, k) is Some,
    ensures
        exists|i: int|
            0 <= i < m.len() && (#[trigger] m[i]).0 == ValueModel::Text(k) && m[i].1 == find_key(
                m,
                k,
            )->0,
    decreases m,
{
    if m[0].0 == ValueModel::Text(k) {
        assert(m[0].0 == ValueModel::Text(k) && m[0].1 == find_key(m, k)->0);
    } else {
        lemma_find_key_exists(m.drop_first(), k);
        let j = choose|j: int|
            0 <= j < m.drop_first().len() && (#[trigger] m.drop_first()[j]).0 == ValueModel::Text(
                k,
            ) && m.drop_first()[j].1 == find_key(m.drop_first(), k)->0;
        assert(m[j + 1] == m.drop_first()[j]);
    }
}

/// A key that is never used is never found.
proof fn lemma_find_key_none(m: Seq<(ValueModel, ValueModel)>, k: Seq<char>)
    requires
        forall|i: int| 0 <= i < m.len() ==> (#[trigger] m[i]).0 != ValueModel::Text(k),
    ensures
        find_key(m, k) is None,
    decreases m,
{
    if m.len() > 0 {
        assert forall|i: int|
            0 <= i < m.drop_first().len() implies (#[trigger] m.drop_first()[i]).0
            != ValueModel::Text(k) by {
            assert(m.drop_first()[i] == m[i + 1]);
        }
        lemma_find_key_none(m.drop_first(), k);
    }
}

// ----- Executable outbound framing ---------------------------------------------
/// The wire map of an error value; never fails.
fn error_value_to_value(e: ErrorValue) -> (r: Value)
    ensures
        r@ == error_value_as_value(e@),
{
    let ghost model = e@;
    let ErrorValue { code, message, data } = e;
    let mut pairs: Vec<(Value, Value)> = Vec::new();
    pairs.push((Value::Text("code".to_owned()), Value::Integer(code as i128)));
    pairs.push((Value::Text("message".to_owned()), Value::Text(message)));
    match data {
        Some(d) => {
            pairs.push((Value::Text("data".to_owned()), d));
        },
        None => {},
    }
    proof {
        crate::value::lemma_pairs_model(pairs@);
        assert(pairs_model(pairs@) =~= error_value_as_value(model)->Mapping_0);
    }
    Value::Mapping(pairs)
}

impl RPCMsg {
    /// Wrap a request for the wire.
    pub fn from_request(r: Request) -> (res: RPCMsg)
        ensures
            res@ == MsgModel::Request(r@),
    {
        RPCMsg(Msg::Request(r))
    }

    /// Wrap a response for the wire.
    pub fn from_response(r: Response) -> (res: RPCMsg)
        ensures
            res@ == MsgModel::Response(r@),
    {
        RPCMsg(Msg::Response(r))
    }

    /// Project the message to a request; a response is refused with
    /// [`ProtocolError::UnexpectedMessage`] rather than coerced.
    pub fn into_request(self) -> (r: Result<Request, ProtocolError>)
        ensures
            match r {
                Ok(req) => self@ == MsgModel::Request(req@),
                Err(e) => self@ is Response && e == ProtocolError::UnexpectedMessage,
            },
    {
        match self.0 {
            Msg::Request(r) => Ok(r),
            Msg::Response(_) => Err(ProtocolError::UnexpectedMessage),
        }
    }

    /// Project the message to a response; a request is refused with
    /// [`ProtocolError::UnexpectedMessage`] rather than coerced.
    pub fn into_response(self) -> (r: Result<Response, ProtocolError>)
        ensures
            match r {
                Ok(resp) => self@ == MsgModel::Response(resp@),
                Err(e) => self@ is Request && e == ProtocolError::UnexpectedMessage,
            },
    {
        match self.0 {
            Msg::Request(_) => Err(ProtocolError::UnexpectedMessage),
            Msg::Response(r) => Ok(r),
        }
    }

    /// The complete wire value of this message: the tagged envelope over
    /// the request or response map. Never fails.
    pub fn into_value(self) -> (r: Value)
        ensures
            r@ == msg_as_value(self@),
    {
        let ghost model = self@;
        let inner: Value = match self.0 {
            Msg::Request(req) => {
                let ghost rm = req@;
                let Request { method, params, req_id } = req;
                let mut pairs: Vec<(Value, Value)> = Vec::new();
                pairs.push((Value::Text("fn".to_owned()), method.into_value()));
                match params {
                    Some(p) => {
                        pairs.push((Value::Text("args".to_owned()), p.into_value()));
                    },
                    None => {},
                }
                match req_id {
                    Some(id) => {
                        pairs.push((Value::Text("id".to_owned()), id.into_value()));
                    },
                    None => {},
                }
                proof {
                    crate::value::lemma_pairs_model(pairs@);
                    assert(pairs_model(pairs@) =~= request_fields(rm));
                }
                Value::Mapping(pairs)
            },
            Msg::Response(resp) => {
                let ghost rm = resp@;
                let Response { result, req_id } = resp;
                let mut pairs: Vec<(Value, Value)> = Vec::new();
                match result {
                    Ok(v) => {
                        pairs.push((Value::Text("ok".to_owned()), v));
                    },
                    Err(e) => {
                        pairs.push((Value::Text("err".to_owned()), error_value_to_value(e)));
                    },
                }
                pairs.push((Value::Text("id".to_owned()), req_id.into_value()));
                proof {
                    crate::value::lemma_pairs_model(pairs@);
                    assert(pairs_model(pairs@) =~= response_as_value(rm)->Mapping_0);
                }
                Value::Mapping(pairs)
            },
        };
        proof {
            assert(inner@ == (match model {
                MsgModel::Request(r) => request_as_value(r),
                MsgModel::Response(r) => response_as_value(r),
            }));
            assert(ValueModel::Tag(TAG_ID_RPCV0, Box::new(inner@)) == msg_as_value(model));
        }
        Value::Tag(TAG_ID_RPCV0, Box::new(inner))
    }
}

/// A key that occurs in the map is found.
proof fn lemma_find_key_some(m: Seq<(ValueModel, ValueModel)>, k: Seq<char>, i: int)
    requires
        0 <= i < m.len(),
        m[i].0 == ValueModel::Text(k),
    ensures
        find_key(m, k) is Some,
    decreases m,
{
    if m[0].0 == ValueModel::Text(k) {
    } else {
        assert(m.drop_first()[i - 1] == m[i]);
        lemma_find_key_some(m.drop_first(), k, i - 1);
    }
}

/// A permutation of a duplicate-free map is duplicate-free and holds the
/// same entries.
proof fn lemma_no_dup_keys_permutation(
    m1: Seq<(ValueModel, ValueModel)>,
    m2: Seq<(ValueModel, ValueModel)>,
)
    requires
        no_dup_keys(m1),
        m1.to_multiset() == m2.to_multiset(),
    ensures
        no_dup_keys(m2),
        forall|x: (ValueModel, ValueModel)| #![auto] m1.contains(x) <==> m2.contains(x),
{
    broadcast use vstd::seq_lib::group_to_multiset_ensures;

    assert forall|x: (ValueModel, ValueModel)| #![auto] m1.contains(x) <==> m2.contains(x) by {
        assert(m1.contains(x) <==> m1.to_multiset().count(x) > 0);
        assert(m2.contains(x) <==> m2.to_multiset().count(x) > 0);
    }
    assert(m1.no_duplicates()) by {
        assert forall|i: int, j: int|
            0 <= i < m1.len() && 0 <= j < m1.len() && i != j implies m1[i] != m1[j] by {
            if i < j {
                assert(m1[i].0 != m1[j].0);
            } else {
                assert(m1[j].0 != m1[i].0);
            }
        }
    }
    m1.lemma_multiset_has_no_duplicates();
    m2.lemma_multiset_has_no_duplicates_conv();
    assert forall|i: int, j: int| 0 <= i < j < m2.len() implies (#[trigger] m2[i]).0 != (
    #[trigger] m2[j]).0 by {
        if m2[i].0 == m2[j].0 {
            assert(m2[i] != m2[j]);
            assert(m2.contains(m2[i]) && m2.contains(m2[j]));
            assert(m1.contains(m2[i]) && m1.contains(m2[j]));
            let a = choose|a: int| 0 <= a < m1.len() && m1[a] == m2[i];
            let b = choose|b: int| 0 <= b < m1.len() && m1[b] == m2[j];
            if a < b {
                assert(m1[a].0 != m1[b].0);
            } else {
                assert(m1[b].0 != m1[a].0);
            }
        }
    }
}

/// Key lookup is insensitive to entry order in duplicate-free maps with
/// the same entries.
proof fn lemma_find_key_permutation(
    m1: Seq<(ValueModel, ValueModel)>,
    m2: Seq<(ValueModel, ValueModel)>,
    k: Seq<char>,
)
    requires
        no_dup_keys(m1),
        no_dup_keys(m2),
        forall|x: (ValueModel, ValueModel)| #![auto] m1.contains(x) <==> m2.contains(x),
    ensures
        find_key(m2, k) == find_key(m1, k),
{
    if find_key(m1, k) is Some {
        lemma_find_key_exists(m1, k);
        let i = choose|i: int|
            0 <= i < m1.len() && (#[trigger] m1[i]).0 == ValueModel::Text(k) && m1[i].1
                == find_key(m1, k)->0;
        assert(m1.contains(m1[i]));
        assert(m2.contains(m1[i]));
        let j = choose|j: int| 0 <= j < m2.len() && m2[j] == m1[i];
        lemma_find_key_some(m2, k, j);
        lemma_find_key_exists(m2, k);
        let j2 = choose|j2: int|
            0 <= j2 < m2.len() && (#[trigger] m2[j2]).0 == ValueModel::Text(k) && m2[j2].1
                == find_key(m2, k)->0;
        if j2 != j {
            if j2 < j {
                assert(m2[j2].0 != m2[j].0);
            } else {
                assert(m2[j].0 != m2[j2].0);
            }
        }
    } else {
        assert forall|j: int| 0 <= j < m2.len() implies (#[trigger] m2[j]).0 != ValueModel::Text(
            k,
        ) by {
            if m2[j].0 == ValueModel::Text(k) {
                assert(m2.contains(m2[j]));
                assert(m1.contains(m2[j]));
                let a = choose|a: int| 0 <= a < m1.len() && m1[a] == m2[j];
                lemma_find_key_some(m1, k, a);
            }
        }
        lemma_find_key_none(m2, k);
    }
}

/// Wire field order is irrelevant: two frames whose maps hold the same
/// key-value entries, in any order, decode to the same logical message.
/// (A map holding a key twice never decodes, so the law speaks of
/// duplicate-free maps.)
#[verifier::rlimit(100)]
pub proof fn lemma_field_order_insensitive(
    m1: Seq<(ValueModel, ValueModel)>,
    m2: Seq<(ValueModel, ValueModel)>,
)
    requires
        no_dup_keys(m1),
        m1.to_multiset() == m2.to_multiset(),
    ensures
        msg_of_value(ValueModel::Tag(TAG_ID_RPCV0, Box::new(ValueModel::Mapping(m2))))
            == msg_of_value(ValueModel::Tag(TAG_ID_RPCV0, Box::new(ValueModel::Mapping(m1)))),
{
    lemma_no_dup_keys_permutation(m1, m2);
    lemma_find_key_permutation(m1, m2, k_fn());
    lemma_find_key_permutation(m1, m2, k_args());
    lemma_find_key_permutation(m1, m2, k_id());
    lemma_find_key_permutation(m1, m2, k_ok());
    lemma_find_key_permutation(m1, m2, k_err());
    assert forall|i: int|
        0 <= i < m2.len() implies exists|a: int|
            0 <= a < m1.len() && m1[a] == (#[trigger] m2[i]) by {
        assert(m2.contains(m2[i]));
        assert(m1.contains(m2[i]));
    }
    assert forall|a: int|
        0 <= a < m1.len() implies exists|i: int|
            0 <= i < m2.len() && m2[i] == (#[trigger] m1[a]) by {
        assert(m1.contains(m1[a]));
        assert(m2.contains(m1[a]));
    }
    assert(is_req_map(m2) == is_req_map(m1)) by {
        if is_req_map(m1) {
            assert forall|i: int|
                0 <= i < m2.len() implies ((#[trigger] m2[i]).0 == ValueModel::Text(k_fn())
                    || m2[i].0 == ValueModel::Text(k_args()) || m2[i].0 == ValueModel::Text(
                    k_id(),
                )) by {
                let a = choose|a: int| 0 <= a < m1.len() && m1[a] == m2[i];
                assert(m1[a].0 == m2[i].0);
            }
        }
        if is_req_map(m2) {
            assert forall|a: int|
                0 <= a < m1.len() implies ((#[trigger] m1[a]).0 == ValueModel::Text(k_fn())
                    || m1[a].0 == ValueModel::Text(k_args()) || m1[a].0 == ValueModel::Text(
                    k_id(),
                )) by {
                let i = choose|i: int| 0 <= i < m2.len() && m2[i] == m1[a];
                assert(m2[i].0 == m1[a].0);
            }
        }
    }
    assert(is_resp_map(m2) == is_resp_map(m1)) by {
        if is_resp_map(m1) {
            assert forall|i: int|
                0 <= i < m2.len() implies ((#[trigger] m2[i]).0 == ValueModel::Text(k_ok())
                    || m2[i].0 == ValueModel::Text(k_err()) || m2[i].0 == ValueModel::Text(
                    k_id(),
                )) by {
                let a = choose|a: int| 0 <= a < m1.len() && m1[a] == m2[i];
                assert(m1[a].0 == m2[i].0);
            }
        }
        if is_resp_map(m2) {
            assert forall|a: int|
                0 <= a < m1.len() implies ((#[trigger] m1[a]).0 == ValueModel::Text(k_ok())
                    || m1[a].0 == ValueModel::Text(k_err()) || m1[a].0 == ValueModel::Text(
                    k_id(),
                )) by {
                let i = choose|i: int| 0 <= i < m2.len() && m2[i] == m1[a];
                assert(m2[i].0 == m1[a].0);
            }
        }
    }
    assert(request_of_map(m2) == request_of_map(m1));
    assert(response_of_map(m2) == response_of_map(m1));
}

// ----- Executable inbound framing ----------------------------------------------
/// The typed request held by a request-shaped map: exactly
/// [`request_of_map`] of the map's model, with `None` for every map that
/// is not a valid request.
#[verifier::loop_isolation(false)]
#[verifier::rlimit(80)]
fn request_from_map(m: &Vec<(Value, Value)>) -> (r: Option<Request>)
    ensures
        match request_of_map(pairs_model(m@)) {
            Some(model) => r is Some && r->0@ == model,
            None => r is None,
        },
{
    let ghost pm = pairs_model(m@);
    proof {
        crate::value::lemma_pairs_model(m@);
        lemma_keys_distinct();
    }
    let key_fn = "fn".to_owned();
    let key_args = "args".to_owned();
    let key_id = "id".to_owned();
    let mut v_fn: Option<Value> = None;
    let mut v_args: Option<Value> = None;
    let mut v_id: Option<Value> = None;
    let mut k: usize = 0;
    while k < m.len()
        invariant
            0 <= k <= pm.len(),
            forall|i: int|
                #![trigger pm[i]]
                0 <= i < k ==> (pm[i].0 == ValueModel::Text(k_fn()) || pm[i].0 == ValueModel::Text(
                    k_args(),
                ) || pm[i].0 == ValueModel::Text(k_id())),
            no_dup_keys(pm.take(k as int)),
            (match v_fn {
                Some(v) => find_key(pm.take(k as int), k_fn()) == Some(v@),
                None => find_key(pm.take(k as int), k_fn()) is None,
            }),
            (match v_args {
                Some(v) => find_key(pm.take(k as int), k_args()) == Some(v@),
                None => find_key(pm.take(k as int), k_args()) is None,
            }),
            (match v_id {
                Some(v) => find_key(pm.take(k as int), k_id()) == Some(v@),
                None => find_key(pm.take(k as int), k_id()) is None,
            }),
        decreases pm.len() - k,
    {
        let pair = &m[k];
        proof {
            assert(pm[k as int] == (m@[k as int].0.model(), m@[k as int].1.model()));
            assert(pm.take(k + 1) =~= pm.take(k as int).push(pm[k as int]));
            lemma_find_key_push(pm.take(k as int), pm[k as int], k_fn());
            lemma_find_key_push(pm.take(k as int), pm[k as int], k_args());
            lemma_find_key_push(pm.take(k as int), pm[k as int], k_id());
        }
        match &pair.0 {
            Value::Text(s) => {
                if *s == key_fn {
                    if v_fn.is_some() {
                        proof {
                            lemma_find_key_exists(pm.take(k as int), k_fn());
                            let j = choose|j: int|
                                0 <= j < k && (#[trigger] pm.take(k as int)[j]).0
                                    == ValueModel::Text(k_fn());
                            assert(pm[j].0 == pm[k as int].0);
                            assert(!no_dup_keys(pm));
                        }
                        return None;
                    }
                    proof {
                        assert forall|i: int| 0 <= i < k implies (#[trigger] pm[i]).0 != pm[
                            k as int].0 by {
                            if pm[i].0 == ValueModel::Text(k_fn()) {
                                assert(pm.take(k as int)[i] == pm[i]);
                                lemma_find_key_some(pm.take(k as int), k_fn(), i);
                            }
                        }
                    }
                    v_fn = Some(pair.1.clone());
                } else if *s == key_args {
                    if v_args.is_some() {
                        proof {
                            lemma_find_key_exists(pm.take(k as int), k_args());
                            let j = choose|j: int|
                                0 <= j < k && (#[trigger] pm.take(k as int)[j]).0
                                    == ValueModel::Text(k_args());
                            assert(pm[j].0 == pm[k as int].0);
                            assert(!no_dup_keys(pm));
                        }
                        return None;
                    }
                    proof {
                        assert forall|i: int| 0 <= i < k implies (#[trigger] pm[i]).0 != pm[
                            k as int].0 by {
                            if pm[i].0 == ValueModel::Text(k_args()) {
                                assert(pm.take(k as int)[i] == pm[i]);
                                lemma_find_key_some(pm.take(k as int), k_args(), i);
                            }
                        }
                    }
                    v_args = Some(pair.1.clone());
                } else if *s == key_id {
                    if v_id.is_some() {
                        proof {
                            lemma_find_key_exists(pm.take(k as int), k_id());
                            let j = choose|j: int|
                                0 <= j < k && (#[trigger] pm.take(k as int)[j]).0
                                    == ValueModel::Text(k_id());
                            assert(pm[j].0 == pm[k as int].0);
                            assert(!no_dup_keys(pm));
                        }
                        return None;
                    }
                    proof {
                        assert forall|i: int| 0 <= i < k implies (#[trigger] pm[i]).0 != pm[
                            k as int].0 by {
                            if pm[i].0 == ValueModel::Text(k_id()) {
                                assert(pm.take(k as int)[i] == pm[i]);
                                lemma_find_key_some(pm.take(k as int), k_id(), i);
                            }
                        }
                    }
                    v_id = Some(pair.1.clone());
                } else {
                    proof {
                        assert(!is_req_map(pm));
                    }
                    return None;
                }
            },
            _ => {
                proof {
                    assert(!is_req_map(pm));
                }
                return None;
            },
        }
        k = k + 1;
    }
    proof {
        assert(pm.take(pm.len() as int) =~= pm);
    }
    let fnv = match v_fn {
        Some(v) => v,
        None => {
            proof {
                assert(!is_req_map(pm));
            }
            return None;
        },
    };
    proof {
        assert(is_req_map(pm));
    }
    let method = match crate::proto::MethodID::from_value(fnv) {
        Ok(mid) => mid,
        Err(_) => {
            return None;
        },
    };
    let params = match v_args {
        Some(v) => match crate::proto::Params::from_value(v) {
            Ok(p) => Some(p),
            Err(_) => {
                return None;
            },
        },
        None => None,
    };
    let req_id = match v_id {
        Some(v) => match crate::proto::RequestID::from_value(v) {
            Ok(i) => Some(i),
            Err(_) => {
                return None;
            },
        },
        None => None,
    };
    let result = Request { method, params, req_id };
    proof {
        assert(result@ =~= request_of_map(pm)->0);
    }
    Some(result)
}

/// The typed error value held by an error-shaped map: exactly
/// [`error_of_value`] of the value's model.
#[verifier::loop_isolation(false)]
#[verifier::rlimit(80)]
fn error_value_from_value(value: &Value) -> (r: Option<ErrorValue>)
    ensures
        match error_of_value(value@) {
            Some(model) => r is Some && r->0@ == model,
            None => r is None,
        },
{
    let m: &Vec<(Value, Value)> = match value {
        Value::Mapping(m) => m,
        _ => {
            return None;
        },
    };
    let ghost pm = pairs_model(m@);
    proof {
        crate::value::lemma_pairs_model(m@);
        lemma_keys_distinct();
    }
    let key_code = "code".to_owned();
    let key_message = "message".to_owned();
    let key_data = "data".to_owned();
    let mut v_code: Option<Value> = None;
    let mut v_message: Option<Value> = None;
    let mut v_data: Option<Value> = None;
    let mut k: usize = 0;
    while k < m.len()
        invariant
            0 <= k <= pm.len(),
            forall|i: int|
                #![trigger pm[i]]
                0 <= i < k ==> (pm[i].0 == ValueModel::Text(k_code()) || pm[i].0
                    == ValueModel::Text(k_message()) || pm[i].0 == ValueModel::Text(k_data())),
            no_dup_keys(pm.take(k as int)),
            (match v_code {
                Some(v) => find_key(pm.take(k as int), k_code()) == Some(v@),
                None => find_key(pm.take(k as int), k_code()) is None,
            }),
            (match v_message {
                Some(v) => find_key(pm.take(k as int), k_message()) == Some(v@),
                None => find_key(pm.take(k as int), k_message()) is None,
            }),
            (match v_data {
                Some(v) => find_key(pm.take(k as int), k_data()) == Some(v@),
                None => find_key(pm.take(k as int), k_data()) is None,
            }),
        decreases pm.len() - k,
    {
        let pair = &m[k];
        proof {
            assert(pm[k as int] == (m@[k as int].0.model(), m@[k as int].1.model()));
            assert(pm.take(k + 1) =~= pm.take(k as int).push(pm[k as int]));
            lemma_find_key_push(pm.take(k as int), pm[k as int], k_code());
            lemma_find_key_push(pm.take(k as int), pm[k as int], k_message());
            lemma_find_key_push(pm.take(k as int), pm[k as int], k_data());
        }
        match &pair.0 {
            Value::Text(s) => {
                if *s == key_code {
                    if v_code.is_some() {
                        proof {
                            lemma_find_key_exists(pm.take(k as int), k_code());
                            let j = choose|j: int|
                                0 <= j < k && (#[trigger] pm.take(k as int)[j]).0
                                    == ValueModel::Text(k_code());
                            assert(pm[j].0 == pm[k as int].0);
                            assert(!no_dup_keys(pm));
                        }
                        return None;
                    }
                    proof {
                        assert forall|i: int| 0 <= i < k implies (#[trigger] pm[i]).0 != pm[
                            k as int].0 by {
                            if pm[i].0 == ValueModel::Text(k_code()) {
                                assert(pm.take(k as int)[i] == pm[i]);
                                lemma_find_key_some(pm.take(k as int), k_code(), i);
                            }
                        }
                    }
                    v_code = Some(pair.1.clone());
                } else if *s == key_message {
                    if v_message.is_some() {
                        proof {
                            lemma_find_key_exists(pm.take(k as int), k_message());
                            let j = choose|j: int|
                                0 <= j < k && (#[trigger] pm.take(k as int)[j]).0
                                    == ValueModel::Text(k_message());
                            assert(pm[j].0 == pm[k as int].0);
                            assert(!no_dup_keys(pm));
                        }
                        return None;
                    }
                    proof {
                        assert forall|i: int| 0 <= i < k implies (#[trigger] pm[i]).0 != pm[
                            k as int].0 by {
                            if pm[i].0 == ValueModel::Text(k_message()) {
                                assert(pm.take(k as int)[i] == pm[i]);
                                lemma_find_key_some(pm.take(k as int), k_message(), i);
                            }
                        }
                    }
                    v_message = Some(pair.1.clone());
                } else if *s == key_data {
                    if v_data.is_some() {
                        proof {
                            lemma_find_key_exists(pm.take(k as int), k_data());
                            let j = choose|j: int|
                                0 <= j < k && (#[trigger] pm.take(k as int)[j]).0
                                    == ValueModel::Text(k_data());
                            assert(pm[j].0 == pm[k as int].0);
                            assert(!no_dup_keys(pm));
                        }
                        return None;
                    }
                    proof {
                        assert forall|i: int| 0 <= i < k implies (#[trigger] pm[i]).0 != pm[
                            k as int].0 by {
                            if pm[i].0 == ValueModel::Text(k_data()) {
                                assert(pm.take(k as int)[i] == pm[i]);
                                lemma_find_key_some(pm.take(k as int), k_data(), i);
                            }
                        }
                    }
                    v_data = Some(pair.1.clone());
                } else {
                    return None;
                }
            },
            _ => {
                return None;
            },
        }
        k = k + 1;
    }
    proof {
        assert(pm.take(pm.len() as int) =~= pm);
    }
    let code: i64 = match v_code {
        Some(Value::Integer(i)) => {
            if -0x8000_0000_0000_0000i128 <= i && i <= 0x7fff_ffff_ffff_ffffi128 {
                i as i64
            } else {
                return None;
            }
        },
        Some(_) => {
            return None;
        },
        None => {
            return None;
        },
    };
    let message: String = match v_message {
        Some(Value::Text(s)) => s,
        Some(_) => {
            return None;
        },
        None => {
            return None;
        },
    };
    let result = ErrorValue { code, message, data: v_data };
    proof {
        assert(result@ =~= error_of_value(value@)->0);
    }
    Some(result)
}

/// The typed response held by a response-shaped map: exactly
/// [`response_of_map`] of the map's model, with `None` for every map that
/// is not a valid response.
#[verifier::loop_isolation(false)]
#[verifier::rlimit(80)]
fn response_from_map(m: &Vec<(Value, Value)>) -> (r: Option<Response>)
    ensures
        match response_of_map(pairs_model(m@)) {
            Some(model) => r is Some && r->0@ == model,
            None => r is None,
        },
{
    let ghost pm = pairs_model(m@);
    proof {
        crate::value::lemma_pairs_model(m@);
        lemma_keys_distinct();
    }
    let key_ok = "ok".to_owned();
    let key_err = "err".to_owned();
    let key_id = "id".to_owned();
    let mut v_ok: Option<Value> = None;
    let mut v_err: Option<Value> = None;
    let mut v_id: Option<Value> = None;
    let mut k: usize = 0;
    while k < m.len()
        invariant
            0 <= k <= pm.len(),
            forall|i: int|
                #![trigger pm[i]]
                0 <= i < k ==> (pm[i].0 == ValueModel::Text(k_ok()) || pm[i].0 == ValueModel::Text(
                    k_err(),
                ) || pm[i].0 == ValueModel::Text(k_id())),
            no_dup_keys(pm.take(k as int)),
            (match v_ok {
                Some(v) => find_key(pm.take(k as int), k_ok()) == Some(v@),
                None => find_key(pm.take(k as int), k_ok()) is None,
            }),
            (match v_err {
                Some(v) => find_key(pm.take(k as int), k_err()) == Some(v@),
                None => find_key(pm.take(k as int), k_err()) is None,
            }),
            (match v_id {
                Some(v) => find_key(pm.take(k as int), k_id()) == Some(v@),
                None => find_key(pm.take(k as int), k_id()) is None,
            }),
        decreases pm.len() - k,
    {
        let pair = &m[k];
        proof {
            assert(pm[k as int] == (m@[k as int].0.model(), m@[k as int].1.model()));
            assert(pm.take(k + 1) =~= pm.take(k as int).push(pm[k as int]));
            lemma_find_key_push(pm.take(k as int), pm[k as int], k_ok());
            lemma_find_key_push(pm.take(k as int), pm[k as int], k_err());
            lemma_find_key_push(pm.take(k as int), pm[k as int], k_id());
        }
        match &pair.0 {
            Value::Text(s) => {
                if *s == key_ok {
                    if v_ok.is_some() {
                        proof {
                            lemma_find_key_exists(pm.take(k as int), k_ok());
                            let j = choose|j: int|
                                0 <= j < k && (#[trigger] pm.take(k as int)[j]).0
                                    == ValueModel::Text(k_ok());
                            assert(pm[j].0 == pm[k as int].0);
                            assert(!no_dup_keys(pm));
                        }
                        return None;
                    }
                    proof {
                        assert forall|i: int| 0 <= i < k implies (#[trigger] pm[i]).0 != pm[
                            k as int].0 by {
                            if pm[i].0 == ValueModel::Text(k_ok()) {
                                assert(pm.take(k as int)[i] == pm[i]);
                                lemma_find_key_some(pm.take(k as int), k_ok(), i);
                            }
                        }
                    }
                    v_ok = Some(pair.1.clone());
                } else if *s == key_err {
                    if v_err.is_some() {
                        proof {
                            lemma_find_key_exists(pm.take(k as int), k_err());
                            let j = choose|j: int|
                                0 <= j < k && (#[trigger] pm.take(k as int)[j]).0
                                    == ValueModel::Text(k_err());
                            assert(pm[j].0 == pm[k as int].0);
                            assert(!no_dup_keys(pm));
                        }
                        return None;
                    }
                    proof {
                        assert forall|i: int| 0 <= i < k implies (#[trigger] pm[i]).0 != pm[
                            k as int].0 by {
                            if pm[i].0 == ValueModel::Text(k_err()) {
                                assert(pm.take(k as int)[i] == pm[i]);
                                lemma_find_key_some(pm.take(k as int), k_err(), i);
                            }
                        }
                    }
                    v_err = Some(pair.1.clone());
                } else if *s == key_id {
                    if v_id.is_some() {
                        proof {
                            lemma_find_key_exists(pm.take(k as int), k_id());
                            let j = choose|j: int|
                                0 <= j < k && (#[trigger] pm.take(k as int)[j]).0
                                    == ValueModel::Text(k_id());
                            assert(pm[j].0 == pm[k as int].0);
                            assert(!no_dup_keys(pm));
                        }
                        return None;
                    }
                    proof {
                        assert forall|i: int| 0 <= i < k implies (#[trigger] pm[i]).0 != pm[
                            k as int].0 by {
                            if pm[i].0 == ValueModel::Text(k_id()) {
                                assert(pm.take(k as int)[i] == pm[i]);
                                lemma_find_key_some(pm.take(k as int), k_id(), i);
                            }
                        }
                    }
                    v_id = Some(pair.1.clone());
                } else {
                    return None;
                }
            },
            _ => {
                return None;
            },
        }
        k = k + 1;
    }
    proof {
        assert(pm.take(pm.len() as int) =~= pm);
    }
    let idv = match v_id {
        Some(v) => v,
        None => {
            return None;
        },
    };
    let result_field: Result<Value, ErrorValue> = match (v_ok, v_err) {
        (Some(v), None) => Ok(v),
        (None, Some(ev)) => match error_value_from_value(&ev) {
            Some(e) => Err(e),
            None => {
                return None;
            },
        },
        _ => {
            return None;
        },
    };
    let req_id = match crate::proto::RequestID::from_value(idv) {
        Ok(i) => i,
        Err(_) => {
            return None;
        },
    };
    let result = Response { result: result_field, req_id };
    proof {
        assert(result@ =~= response_of_map(pm)->0);
    }
    Some(result)
}

impl RPCMsg {
    /// Recognize a dynamic value as a message: exactly [`msg_of_value`] of
    /// the value's model, with [`ProtocolError::InvalidMessage`] for every
    /// value that is not a valid message.
    pub fn from_value(value: Value) -> (r: Result<RPCMsg, ProtocolError>)
        ensures
            match msg_of_value(value@) {
                Some(m) => r is Ok && r->Ok_0@ == m,
                None => r == Err::<RPCMsg, ProtocolError>(ProtocolError::InvalidMessage),
            },
    {
        let ghost vm = value@;
        match value {
            Value::Tag(t, inner) => {
                proof {
                    assert(vm == ValueModel::Tag(t, Box::new(inner@)));
                }
                if t != TAG_ID_RPCV0 {
                    return Err(ProtocolError::InvalidMessage);
                }
                let ghost im = inner@;
                match *inner {
                    Value::Mapping(pairs) => {
                        proof {
                            assert(im == ValueModel::Mapping(pairs_model(pairs@)));
                            assert(msg_of_value(vm) == (match request_of_map(pairs_model(pairs@)) {
                                Some(r) => Some(MsgModel::Request(r)),
                                None => match response_of_map(pairs_model(pairs@)) {
                                    Some(r) => Some(MsgModel::Response(r)),
                                    None => None::<MsgModel>,
                                },
                            }));
                        }
                        match request_from_map(&pairs) {
                            Some(req) => Ok(RPCMsg(Msg::Request(req))),
                            None => match response_from_map(&pairs) {
                                Some(resp) => Ok(RPCMsg(Msg::Response(resp))),
                                None => Err(ProtocolError::InvalidMessage),
                            },
                        }
                    },
                    _ => Err(ProtocolError::InvalidMessage),
                }
            },
            _ => Err(ProtocolError::InvalidMessage),
        }
    }

    /// Encode this message as one complete wire frame. The encoder itself
    /// is total on well-formed values; a message carrying an integer
    /// outside the encodable range is refused with
    /// [`TransportError::Encode`].
    pub fn encode(self) -> (r: Result<Vec<u8>, TransportError>)
        ensures
            msg_as_value(self@).wf() ==> r is Ok && r->Ok_0@ == msg_enc(self@),
            !msg_as_value(self@).wf() ==> r is Err && r->Err_0 is Encode,
    {
        let ghost model = self@;
        let value = self.into_value();
        if value.is_wf() {
            let mut out: Vec<u8> = Vec::new();
            encode_value(&value, &mut out);
            proof {
                assert(out@ =~= msg_enc(model));
            }
            Ok(out)
        } else {
            Err(TransportError::Encode("integer out of encodable range".to_owned()))
        }
    }

    /// Decode exactly one wire frame from the front of `bytes`: the
    /// message and how many bytes the frame took, exactly as [`msg_dec`]
    /// says. Every failure is a [`TransportError::Decode`]: when the bytes
    /// decode to a value that is no message, the offset is absent; when
    /// they decode to no value at all, the error is the exact
    /// [`crate::codec::decode_fail_report`] of the decoder's failure —
    /// the byte offset present exactly when the fault is localizable, and
    /// absent for a recursion-limit failure.
    pub fn decode(bytes: &[u8]) -> (r: Result<(RPCMsg, usize), TransportError>)
        ensures
            match msg_dec(bytes@) {
                Some((m, used)) => r is Ok && (r->Ok_0).0@ == m && (r->Ok_0).1 == used,
                None => {
                    &&& r is Err
                    &&& dec(bytes@, DECODE_DEPTH_LIMIT as nat) is Some ==> (r->Err_0
                        matches TransportError::Decode { msg, pos } && msg@
                        == "not an RPC message"@ && pos is None)
                    &&& dec(bytes@, DECODE_DEPTH_LIMIT as nat) is None ==> exists|e: DecodeFail|
                        #[trigger] crate::codec::decode_fail_report(
                            e,
                            bytes@.len() as usize,
                            r->Err_0,
                        )
                },
            },
    {
        match decode_value(bytes) {
            Ok((value, used)) => match RPCMsg::from_value(value) {
                Ok(msg) => Ok((msg, used)),
                Err(_) => Err(
                    TransportError::Decode { msg: "not an RPC message".to_owned(), pos: None },
                ),
            },
            Err(e) => {
                let report = e.to_transport_error(bytes.len());
                proof {
                    assert(crate::codec::decode_fail_report(e, bytes@.len() as usize, report));
                }
                Err(report)
            },
        }
    }
}

} // verus!
