//! The echo service: a request is answered with what it said.
//!
//! The answer to a single request wraps the payload as a JSON string, which
//! is the work of `serde_json`; the answers on a stream hand the payload
//! back as it came.

use crate::service::{Request, Response};
use vstd::prelude::*;
use vstd::string::StringExecFns;

verus! {

/// The status of every answer of the echo service.
pub const STATUS_OK: i32 = 200;

/// The JSON string that `serde_json::to_string` writes for `text`: the
/// text between double quotes, with the characters escaped that JSON asks
/// to be.
pub uninterp spec fn json_string(text: Seq<char>) -> Seq<char>;

/// What stands for the payload where it could not be written as JSON: the
/// empty JSON string.
pub open spec fn empty_json_string() -> Seq<char> {
    "\"\""@
}

/// The payload of the answer to a request of the kind `kind` whose own
/// payload, as a JSON string, is `echo`.
pub open spec fn echo_payload(echo: Seq<char>, kind: Seq<char>) -> Seq<char> {
    "{\"echo\":"@ + echo + ",\"type\":\""@ + kind + "\"}"@
}

/// What is echoed for a payload that was written as `quoted`, if it was
/// written.
pub open spec fn echoed(quoted: Option<String>) -> Seq<char> {
    match quoted {
        Some(q) => q@,
        None => empty_json_string(),
    }
}

/// Writes `text` as a JSON string, by `serde_json::to_string`. Where that
/// succeeds, the result is the string that the contract names
/// `json_string`; nothing is returned where it reports an error.
#[verifier::external_body]
fn quote(text: &str) -> (quoted: Option<String>)
    ensures
        quoted matches Some(q) ==> q@ == json_string(text@),
{
    serde_json::to_string(text).ok()
}

/// The answer to `request` once its payload has been written as a JSON
/// string: it has the identifier of the request, the status `STATUS_OK`,
/// and a payload that holds the written string, or the empty JSON string
/// where there is none, and the kind of the request.
pub fn answer(request: Request, quoted: Option<String>) -> (response: Response)
    ensures
        response.id@ == request.id@,
        response.status == STATUS_OK,
        response.payload@ == echo_payload(echoed(quoted), request.kind@),
{
    let mut payload = String::from_str("{\"echo\":");
    match &quoted {
        Some(q) => payload.append(q.as_str()),
        None => payload.append("\"\""),
    }
    payload.append(",\"type\":\"");
    payload.append(request.kind.as_str());
    payload.append("\"}");
    Response { id: request.id, status: STATUS_OK, payload }
}

/// Answers `request`: the payload of the answer holds the payload of the
/// request as a JSON string, and the kind of the request.
pub fn send(request: Request) -> (response: Response)
    ensures
        response.id@ == request.id@,
        response.status == STATUS_OK,
        response.payload@ == echo_payload(json_string(request.payload@), request.kind@)
            || response.payload@ == echo_payload(empty_json_string(), request.kind@),
{
    let quoted = quote(request.payload.as_str());
    answer(request, quoted)
}

/// Answers one request of a stream: the answer has the identifier and the
/// payload of the request, and the status `STATUS_OK`.
pub fn stream_response(request: Request) -> (response: Response)
    ensures
        response.id@ == request.id@,
        response.status == STATUS_OK,
        response.payload@ == request.payload@,
{
    Response { id: request.id, status: STATUS_OK, payload: request.payload }
}

} // verus!
