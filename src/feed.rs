use vstd::prelude::*;

verus! {

/// An address is still listed when the feed's confidence score reaches this.
pub const CONFIDENCE_THRESHOLD: i64 = 100;

/// The integer that a JSON pointer names in a JSON text: nothing if the text
/// is not JSON, the pointer names no value, or the value is not an integer in
/// the range of `i64`.
pub uninterp spec fn json_i64_at(text: Seq<char>, pointer: Seq<char>) -> Option<i64>;

/// Relies on `serde_json::from_str` into `serde_json::Value`, then
/// `Value::pointer` and `Value::as_i64`: the integer that `pointer` names in
/// the JSON text, a function of the two texts alone.
#[verifier::external_body]
fn json_i64_lookup(text: &str, pointer: &str) -> (r: Option<i64>)
    ensures
        r == json_i64_at(text@, pointer@),
{
    match serde_json::from_str::<serde_json::Value>(text) {
        Ok(v) => match v.pointer(pointer) {
            Some(n) => n.as_i64(),
            None => None,
        },
        Err(_) => None,
    }
}

/// How the feed answered a request, by status code.
#[derive(Debug, Clone, Copy, PartialEq, Eq, Structural)]
pub enum ResponseClass {
    /// A 2xx status: the body is the answer.
    Success,
    /// A 4xx status: the request limit of the credential was hit.
    RequestLimit,
    /// Any other status: the feed failed.
    RequestError,
}

pub open spec fn class_of(code: u16) -> ResponseClass {
    if 200 <= code < 300 {
        ResponseClass::Success
    } else if 400 <= code < 500 {
        ResponseClass::RequestLimit
    } else {
        ResponseClass::RequestError
    }
}

/// The class of a response status code.
pub fn classify_status(code: u16) -> (r: ResponseClass)
    ensures
        r == class_of(code),
{
    if 200 <= code && code < 300 {
        ResponseClass::Success
    } else if 400 <= code && code < 500 {
        ResponseClass::RequestLimit
    } else {
        ResponseClass::RequestError
    }
}

/// What a feed request yields: the body read from a successful response
/// (nothing if it could not be read), nothing on any other status.
pub fn response_body(code: u16, body: Option<String>) -> (r: Option<String>)
    ensures
        class_of(code) == ResponseClass::Success ==> r == body,
        class_of(code) != ResponseClass::Success ==> r is None,
{
    match classify_status(code) {
        ResponseClass::Success => body,
        _ => None,
    }
}

/// Whether a confidence score means "still listed"; nothing without a score.
pub fn score_verdict(score: Option<i64>) -> (r: Option<bool>)
    ensures
        r == match score {
            Some(s) => Some(s >= CONFIDENCE_THRESHOLD),
            None => None,
        },
{
    match score {
        Some(s) => Some(s >= CONFIDENCE_THRESHOLD),
        None => None,
    }
}

/// The verdict in the body of a per-address check: the confidence score at
/// `data.abuseConfidenceScore` compared with the threshold; nothing if the
/// body is not JSON or holds no integer score there.
pub fn check_verdict(body: &str) -> (r: Option<bool>)
    ensures
        r == match json_i64_at(body@, "/data/abuseConfidenceScore"@) {
            Some(s) => Some(s >= CONFIDENCE_THRESHOLD),
            None => None,
        },
{
    score_verdict(json_i64_lookup(body, "/data/abuseConfidenceScore"))
}

} // verus!
