//! The wire protocol: each direction of a connection carries one
//! self-delimiting JSON value.
//!
//! A request is a tagged union `{"Set": {"key": .., "value": ..}}`,
//! `{"Get": {"key": ..}}` or `{"Rm": {"key": ..}}`.  A response is
//! `{"Ok": null}` for a successful write or a miss, `{"Ok": STRING}` for
//! a hit, and `{"Err": STRING}` for any failure.  As with log records,
//! the bytes are named by uninterpreted functions and every verified
//! fact goes through those names.

use vstd::prelude::*;

use serde_json::Value;

use crate::error::KvsError;
use crate::store::KvStore;

verus! {

/// Ghost model of one request.
pub enum ReqModel {
    /// Bind `key` to `value`.
    SetReq { key: Seq<char>, value: Seq<char> },
    /// Read `key`.
    GetReq { key: Seq<char> },
    /// Unbind `key`.
    RmReq { key: Seq<char> },
}

/// One request of the protocol.
#[derive(Debug, Clone, PartialEq, Eq)]
pub enum Request {
    /// Bind `key` to `value`.
    SetReq { key: String, value: String },
    /// Read `key`.
    GetReq { key: String },
    /// Unbind `key`.
    RmReq { key: String },
}

impl View for Request {
    type V = ReqModel;

    open spec fn view(&self) -> ReqModel {
        match self {
            Request::SetReq { key, value } => (ReqModel::SetReq { key: key@, value: value@ }),
            Request::GetReq { key } => (ReqModel::GetReq { key: key@ }),
            Request::RmReq { key } => (ReqModel::RmReq { key: key@ }),
        }
    }
}

/// Ghost model of one response.
pub enum RespModel {
    /// The operation succeeded; a `Get` hit carries the value.
    SuccessResp { value: Option<Seq<char>> },
    /// The operation failed with a message.
    FailureResp { message: Seq<char> },
}

/// One response of the protocol.
#[derive(Debug, Clone, PartialEq, Eq)]
pub enum Response {
    /// The operation succeeded; a `Get` hit carries the value.
    Success { value: Option<String> },
    /// The operation failed with a message.
    Failure { message: String },
}

impl View for Response {
    type V = RespModel;

    open spec fn view(&self) -> RespModel {
        match self {
            Response::Success { value } => (RespModel::SuccessResp {
                value: match value {
                    Some(v) => Some(v@),
                    None => None,
                },
            }),
            Response::Failure { message } => (RespModel::FailureResp { message: message@ }),
        }
    }
}

/// The serialized bytes of one request: a `Set` for `Some` values, else a
/// `Get` when `get` holds, else an `Rm`.  Uninterpreted; it stands for
/// the output of `serde_json::to_vec` on the request.
pub uninterp spec fn req_bytes(key: Seq<char>, value: Option<Seq<char>>, get: bool) -> Seq<u8>;

/// The request model carrying the given fields.
pub open spec fn req_of(key: Seq<char>, value: Option<Seq<char>>, get: bool) -> ReqModel {
    match value {
        Some(v) => ReqModel::SetReq { key, value: v },
        None => if get {
            ReqModel::GetReq { key }
        } else {
            ReqModel::RmReq { key }
        },
    }
}

/// The serialized bytes of a request model.
pub open spec fn req_model_bytes(r: ReqModel) -> Seq<u8> {
    match r {
        ReqModel::SetReq { key, value } => req_bytes(key, Some(value), false),
        ReqModel::GetReq { key } => req_bytes(key, None, true),
        ReqModel::RmReq { key } => req_bytes(key, None, false),
    }
}

/// The serialized bytes of one response: `Ok` with an optional value, or
/// `Err` with a message.  Uninterpreted; it stands for the output of
/// `serde_json::to_vec` on the response.
pub uninterp spec fn resp_bytes(r: Result<Option<Seq<char>>, Seq<char>>) -> Seq<u8>;

/// The response model carrying the given outcome.
pub open spec fn resp_of(r: Result<Option<Seq<char>>, Seq<char>>) -> RespModel {
    match r {
        Ok(v) => RespModel::SuccessResp { value: v },
        Err(m) => RespModel::FailureResp { message: m },
    }
}

/// The serialized bytes of a response model.
pub open spec fn resp_model_bytes(r: RespModel) -> Seq<u8> {
    match r {
        RespModel::SuccessResp { value } => resp_bytes(Ok(value)),
        RespModel::FailureResp { message } => resp_bytes(Err(message)),
    }
}

/// Relies on `serde_json::to_vec`: the request is serialized as one
/// tagged JSON value whose bytes depend on its fields alone and are
/// never empty.
#[verifier::external_body]
pub fn encode_request(r: &Request) -> (out: Vec<u8>)
    ensures
        out@ == req_model_bytes(r@),
        out@.len() > 0,
{
    let (tag, fields) = match r {
        Request::SetReq { key, value } => ("Set", vec![("key".to_owned(), Value::String(key.clone())), ("value".to_owned(), Value::String(value.clone()))]),
        Request::GetReq { key } => ("Get", vec![("key".to_owned(), Value::String(key.clone()))]),
        Request::RmReq { key } => ("Rm", vec![("key".to_owned(), Value::String(key.clone()))]),
    };
    let inner = Value::Object(fields.into_iter().collect());
    let outer = Value::Object([(tag.to_owned(), inner)].into_iter().collect());
    serde_json::to_vec(&outer).expect("serializing a JSON value cannot fail")
}

/// Relies on `serde_json::from_slice`: parsing the serialized bytes of a
/// request yields that request back.
#[verifier::external_body]
pub fn decode_request(bytes: &[u8]) -> (out: Result<Request, KvsError>)
    ensures
        forall|k: Seq<char>, v: Option<Seq<char>>, g: bool|
            bytes@ == #[trigger] req_bytes(k, v, g) ==> match out {
                Ok(rq) => rq@ == req_of(k, v, g),
                Err(_) => false,
            },
{
    let v: Value = match serde_json::from_slice(bytes) {
        Ok(v) => v, Err(e) => return Err(KvsError::Serde { message: e.to_string() }),
    };
    let f = |p: &str| v.pointer(p).and_then(Value::as_str).map(str::to_owned);
    match (f("/Set/key"), f("/Set/value"), f("/Get/key"), f("/Rm/key")) {
        (Some(key), Some(value), _, _) => Ok(Request::SetReq { key, value }),
        (_, _, Some(key), _) => Ok(Request::GetReq { key }),
        (_, _, _, Some(key)) => Ok(Request::RmReq { key }),
        _ => Err(KvsError::Serde { message: "unrecognized request shape".to_owned() }),
    }
}

/// Relies on `serde_json::to_vec`: the response is serialized as one
/// tagged JSON value whose bytes depend on its fields alone and are
/// never empty.
#[verifier::external_body]
pub fn encode_response(r: &Response) -> (out: Vec<u8>)
    ensures
        out@ == resp_model_bytes(r@),
        out@.len() > 0,
{
    let outer = match r {
        Response::Success { value } => {
            let v = match value { Some(s) => Value::String(s.clone()), None => Value::Null };
            Value::Object([("Ok".to_owned(), v)].into_iter().collect())
        },
        Response::Failure { message } => Value::Object([("Err".to_owned(), Value::String(message.clone()))].into_iter().collect()),
    };
    serde_json::to_vec(&outer).expect("serializing a JSON value cannot fail")
}

/// Relies on `serde_json::from_slice`: parsing the serialized bytes of a
/// response yields that response back.
#[verifier::external_body]
pub fn decode_response(bytes: &[u8]) -> (out: Result<Response, KvsError>)
    ensures
        forall|r: Result<Option<Seq<char>>, Seq<char>>|
            bytes@ == #[trigger] resp_bytes(r) ==> match out {
                Ok(rp) => rp@ == resp_of(r),
                Err(_) => false,
            },
{
    let v: Value = match serde_json::from_slice(bytes) {
        Ok(v) => v, Err(e) => return Err(KvsError::Serde { message: e.to_string() }),
    };
    match v.get("Ok") {
        Some(Value::Null) => return Ok(Response::Success { value: None }),
        Some(Value::String(s)) => return Ok(Response::Success { value: Some(s.clone()) }),
        _ => {},
    }
    if let Some(m) = v.get("Err").and_then(Value::as_str) {
        return Ok(Response::Failure { message: m.to_owned() });
    }
    Err(KvsError::Serde { message: "unrecognized response shape".to_owned() })
}

/// The response owed to one request on the given bindings.
pub open spec fn expected_resp(m: Map<Seq<char>, Seq<char>>, r: ReqModel) -> RespModel {
    match r {
        ReqModel::SetReq { .. } => RespModel::SuccessResp { value: None },
        ReqModel::GetReq { key } => RespModel::SuccessResp {
            value: if m.dom().contains(key) {
                Some(m[key])
            } else {
                None
            },
        },
        ReqModel::RmReq { key } => if m.dom().contains(key) {
            RespModel::SuccessResp { value: None }
        } else {
            RespModel::FailureResp { message: "Key not found"@ }
        },
    }
}

/// The bindings left by one request.
pub open spec fn applied_req(m: Map<Seq<char>, Seq<char>>, r: ReqModel) -> Map<
    Seq<char>,
    Seq<char>,
> {
    match r {
        ReqModel::SetReq { key, value } => m.insert(key, value),
        ReqModel::GetReq { .. } => m,
        ReqModel::RmReq { key } => m.remove(key),
    }
}

/// Executes one decoded request against the store and builds its
/// response: the compute step of the server's per-connection job.
pub fn handle_request(store: &mut KvStore, req: Request) -> (resp: Response)
    requires
        old(store).wf(),
        old(store).spec_current_gen() <= u64::MAX - 2,
    ensures
        final(store).wf(),
        final(store).model() == applied_req(old(store).model(), req@),
        resp@ == expected_resp(old(store).model(), req@),
{
    match req {
        Request::SetReq { key, value } => match store.set(key, value) {
            Ok(_) => Response::Success { value: None },
            Err(e) => {
                proof {
                    assert(false);
                }
                Response::Failure { message: e.message() }
            },
        },
        Request::GetReq { key } => match store.get(key) {
            Ok(v) => Response::Success { value: v },
            Err(e) => {
                proof {
                    assert(false);
                }
                Response::Failure { message: e.message() }
            },
        },
        Request::RmReq { key } => match store.remove(key) {
            Ok(_) => Response::Success { value: None },
            Err(e) => Response::Failure { message: e.message() },
        },
    }
}

/// Decodes one request frame, executes it, and encodes the response
/// frame: everything of a connection's job between the socket's read and
/// its write.  An undecodable frame leaves the store alone and yields an
/// encoded failure response.
pub fn handle_request_bytes(store: &mut KvStore, bytes: &[u8]) -> (out: Vec<u8>)
    requires
        old(store).wf(),
        old(store).spec_current_gen() <= u64::MAX - 2,
    ensures
        final(store).wf(),
        forall|k: Seq<char>, v: Option<Seq<char>>, g: bool|
            bytes@ == #[trigger] req_bytes(k, v, g) ==> final(store).model() == applied_req(
                old(store).model(),
                req_of(k, v, g),
            ) && out@ == resp_model_bytes(expected_resp(old(store).model(), req_of(k, v, g))),
        exists|rm: RespModel| out@ == #[trigger] resp_model_bytes(rm),
{
    match decode_request(bytes) {
        Ok(req) => {
            let resp = handle_request(store, req);
            encode_response(&resp)
        },
        Err(e) => {
            let resp = Response::Failure { message: e.message() };
            encode_response(&resp)
        },
    }
}

} // verus!
