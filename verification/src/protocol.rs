//! The program protocol's envelopes: error codes, the response lines a call is
//! answered with, and the scripts that deliver a response or an event into a
//! webview.

use vstd::prelude::*;
use crate::json::{json_quoted, json_string};
use crate::text::{decimal, push_decimal, push_str, replace_all, replaced, string_of, chars_of};

verus! {

/// The error codes a response can carry.
#[derive(Debug, Clone, Copy, PartialEq, Eq, Structural)]
pub enum ErrorCode {
    BoundaryViolation,
    ReadOnlyMount,
    ValidationError,
    NotFound,
    RunFailed,
    InvalidRequest,
    TransportClosed,
}

/// The wire name of a code.
pub open spec fn wire_name(code: ErrorCode) -> Seq<char> {
    match code {
        ErrorCode::BoundaryViolation => "BOUNDARY_VIOLATION"@,
        ErrorCode::ReadOnlyMount => "READ_ONLY_MOUNT"@,
        ErrorCode::ValidationError => "VALIDATION_ERROR"@,
        ErrorCode::NotFound => "NOT_FOUND"@,
        ErrorCode::RunFailed => "RUN_FAILED"@,
        ErrorCode::InvalidRequest => "INVALID_REQUEST"@,
        ErrorCode::TransportClosed => "TRANSPORT_CLOSED"@,
    }
}

impl ErrorCode {
    pub fn wire(self) -> (name: &'static str)
        ensures
            name@ == wire_name(self),
    {
        match self {
            ErrorCode::BoundaryViolation => "BOUNDARY_VIOLATION",
            ErrorCode::ReadOnlyMount => "READ_ONLY_MOUNT",
            ErrorCode::ValidationError => "VALIDATION_ERROR",
            ErrorCode::NotFound => "NOT_FOUND",
            ErrorCode::RunFailed => "RUN_FAILED",
            ErrorCode::InvalidRequest => "INVALID_REQUEST",
            ErrorCode::TransportClosed => "TRANSPORT_CLOSED",
        }
    }
}


/// The code a wire name stands for; a name the protocol does not know is an
/// invalid request.
pub open spec fn code_of(wire: Seq<char>) -> ErrorCode {
    if wire == wire_name(ErrorCode::BoundaryViolation) {
        ErrorCode::BoundaryViolation
    } else if wire == wire_name(ErrorCode::ReadOnlyMount) {
        ErrorCode::ReadOnlyMount
    } else if wire == wire_name(ErrorCode::ValidationError) {
        ErrorCode::ValidationError
    } else if wire == wire_name(ErrorCode::NotFound) {
        ErrorCode::NotFound
    } else if wire == wire_name(ErrorCode::RunFailed) {
        ErrorCode::RunFailed
    } else if wire == wire_name(ErrorCode::TransportClosed) {
        ErrorCode::TransportClosed
    } else {
        ErrorCode::InvalidRequest
    }
}

/// Whether two string slices hold the same characters.
pub fn same_text(a: &str, b: &str) -> (r: bool)
    ensures
        r == (a@ == b@),
{
    let x = a.to_owned();
    let y = b.to_owned();
    x == y
}

/// Reads an engine's wire code back into a protocol code.
pub fn code_for_wire(wire: &str) -> (code: ErrorCode)
    ensures
        code == code_of(wire@),
{
    if same_text(wire, "BOUNDARY_VIOLATION") {
        ErrorCode::BoundaryViolation
    } else if same_text(wire, "READ_ONLY_MOUNT") {
        ErrorCode::ReadOnlyMount
    } else if same_text(wire, "VALIDATION_ERROR") {
        ErrorCode::ValidationError
    } else if same_text(wire, "NOT_FOUND") {
        ErrorCode::NotFound
    } else if same_text(wire, "RUN_FAILED") {
        ErrorCode::RunFailed
    } else if same_text(wire, "TRANSPORT_CLOSED") {
        ErrorCode::TransportClosed
    } else {
        ErrorCode::InvalidRequest
    }
}

/// Every code survives the trip through its wire name.
pub proof fn wire_names_read_back(code: ErrorCode)
    ensures
        code_of(wire_name(code)) == code,
{
    reveal_strlit("BOUNDARY_VIOLATION");
    reveal_strlit("READ_ONLY_MOUNT");
    reveal_strlit("VALIDATION_ERROR");
    reveal_strlit("NOT_FOUND");
    reveal_strlit("RUN_FAILED");
    reveal_strlit("INVALID_REQUEST");
    reveal_strlit("TRANSPORT_CLOSED");
    let names = seq![
        wire_name(ErrorCode::BoundaryViolation),
        wire_name(ErrorCode::ReadOnlyMount),
        wire_name(ErrorCode::ValidationError),
        wire_name(ErrorCode::NotFound),
        wire_name(ErrorCode::RunFailed),
        wire_name(ErrorCode::InvalidRequest),
        wire_name(ErrorCode::TransportClosed),
    ];
    assert forall|i: int, j: int| 0 <= i < j < 7 implies names[i] != names[j] by {
        if names[i].len() == names[j].len() {
            assert(names[i][0] != names[j][0]);
        }
    }
    assert(names[0] == wire_name(ErrorCode::BoundaryViolation));
}

/// An error a call is answered with.
#[derive(Debug, Clone, PartialEq)]
pub struct EngineError {
    pub code: ErrorCode,
    pub message: String,
}

impl EngineError {
    pub fn new(code: ErrorCode, message: &str) -> (e: EngineError)
        ensures
            e.code == code,
            e.message@ == message@,
    {
        EngineError { code, message: message.to_owned() }
    }
}

/// The caller a request is made for: `None` for the host itself, `Some` for
/// the process whose webview sent it.
#[derive(Debug, Clone, PartialEq)]
pub struct Context {
    pub process_id: Option<String>,
}

/// A message that failed to parse. `id` is carried when it could be read, so
/// the failure can still be answered on the right call.
#[derive(Debug, Clone, PartialEq)]
pub struct ParseFailure {
    pub id: Option<u64>,
    pub message: String,
}

/// What one incoming message comes to: a response line for the call `id`, or
/// a message with no readable id that nothing can answer.
#[derive(Debug, Clone, PartialEq)]
pub enum Outcome {
    Reply { id: u64, response: String },
    Drop { reason: String },
}

/// The success line: `{"id":<id>,"result":<result>}`, keys in sorted order.
pub open spec fn ok_envelope(id: nat, result: Seq<char>) -> Seq<char> {
    "{\"id\":"@ + decimal(id) + ",\"result\":"@ + result + "}"@
}

/// The failure line: `{"error":{"code":<wire>,"message":<message>},"id":<id>}`,
/// keys in the sorted order serde_json writes an object in.
pub open spec fn err_envelope(id: nat, code: ErrorCode, message: Seq<char>) -> Seq<char> {
    "{\"error\":{\"code\":"@ + json_quoted(wire_name(code)) + ",\"message\":"@ + json_quoted(message)
        + "},\"id\":"@ + decimal(id) + "}"@
}

/// Pairs a call's id with its result, already written as JSON.
pub fn response_ok(id: u64, result_json: &str) -> (line: String)
    ensures
        line@ == ok_envelope(id as nat, result_json@),
{
    let mut out: Vec<char> = Vec::new();
    push_str(&mut out, "{\"id\":");
    push_decimal(&mut out, id);
    push_str(&mut out, ",\"result\":");
    push_str(&mut out, result_json);
    push_str(&mut out, "}");
    string_of(&out)
}

/// Pairs a call's id with the error it failed with.
pub fn response_err(id: u64, error: &EngineError) -> (line: String)
    ensures
        line@ == err_envelope(id as nat, error.code, error.message@),
{
    let code = json_string(error.code.wire());
    let message = json_string(error.message.as_str());
    let mut out: Vec<char> = Vec::new();
    push_str(&mut out, "{\"error\":{\"code\":");
    push_str(&mut out, code.as_str());
    push_str(&mut out, ",\"message\":");
    push_str(&mut out, message.as_str());
    push_str(&mut out, "},\"id\":");
    push_decimal(&mut out, id);
    push_str(&mut out, "}");
    string_of(&out)
}

/// A parse failure settled without the engine: with an id it is answered as
/// an invalid request, without one it is dropped.
pub fn settle(failure: ParseFailure) -> (outcome: Outcome)
    ensures
        match failure.id {
            Some(id) => outcome == (Outcome::Reply {
                id,
                response: outcome->response,
            }) && outcome->response@ == err_envelope(
                id as nat,
                ErrorCode::InvalidRequest,
                failure.message@,
            ),
            None => outcome is Drop && outcome->reason@ == failure.message@,
        },
{
    match failure.id {
        Some(id) => {
            let error = EngineError::new(ErrorCode::InvalidRequest, failure.message.as_str());
            Outcome::Reply { id, response: response_err(id, &error) }
        },
        None => Outcome::Drop { reason: failure.message },
    }
}

/// The engine's answer to call `id`, as the line that resolves it.
pub fn reply(id: u64, answer: Result<String, EngineError>) -> (outcome: Outcome)
    ensures
        outcome is Reply,
        outcome->id == id,
        match answer {
            Ok(result) => outcome->response@ == ok_envelope(id as nat, result@),
            Err(error) => outcome->response@ == err_envelope(id as nat, error.code, error.message@),
        },
{
    let response = match &answer {
        Ok(result) => response_ok(id, result.as_str()),
        Err(error) => response_err(id, error),
    };
    Outcome::Reply { id, response }
}

/// JSON made safe to stand in a script: U+2028 and U+2029 are line
/// terminators in JavaScript source, so each is written as its escape.
pub open spec fn js_safe(json: Seq<char>) -> Seq<char> {
    replaced(replaced(json, seq!['\u{2028}'], "\\u2028"@), seq!['\u{2029}'], "\\u2029"@)
}

/// `__sdk.resolve(<id>, <payload>);`
pub open spec fn resolve_call(id: nat, json: Seq<char>) -> Seq<char> {
    "__sdk.resolve("@ + decimal(id) + ", "@ + js_safe(json) + ");"@
}

/// `__sdk.event(<payload>);`
pub open spec fn event_call(json: Seq<char>) -> Seq<char> {
    "__sdk.event("@ + js_safe(json) + ");"@
}

fn escape_for_js(json: &str) -> (r: Vec<char>)
    ensures
        r@ == js_safe(json@),
{
    let s = chars_of(json);
    let line = vec!['\u{2028}'];
    let paragraph = vec!['\u{2029}'];
    assert(line@ =~= seq!['\u{2028}']);
    assert(paragraph@ =~= seq!['\u{2029}']);
    let first = replace_all(&s, &line, &chars_of("\\u2028"));
    replace_all(&first, &paragraph, &chars_of("\\u2029"))
}

/// The script that resolves webview call `id` with its response line.
pub fn resolve_script(id: u64, response_json: &str) -> (script: String)
    ensures
        script@ == resolve_call(id as nat, response_json@),
{
    let mut out: Vec<char> = Vec::new();
    push_str(&mut out, "__sdk.resolve(");
    push_decimal(&mut out, id);
    push_str(&mut out, ", ");
    let payload = escape_for_js(response_json);
    crate::text::push_all(&mut out, &payload);
    push_str(&mut out, ");");
    string_of(&out)
}

/// The script that delivers an unsolicited event.
pub fn event_script(event_json: &str) -> (script: String)
    ensures
        script@ == event_call(event_json@),
{
    let mut out: Vec<char> = Vec::new();
    push_str(&mut out, "__sdk.event(");
    let payload = escape_for_js(event_json);
    crate::text::push_all(&mut out, &payload);
    push_str(&mut out, ");");
    string_of(&out)
}

/// Routes a transport payload by its shape: one with a numeric `id` is a
/// response, anything else an event.
pub fn delivery_script(payload_json: &str, id: Option<u64>) -> (script: String)
    ensures
        match id {
            Some(n) => script@ == resolve_call(n as nat, payload_json@),
            None => script@ == event_call(payload_json@),
        },
{
    match id {
        Some(n) => resolve_script(n, payload_json),
        None => event_script(payload_json),
    }
}

} // verus!
