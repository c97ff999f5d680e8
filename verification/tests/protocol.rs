use host::protocol::{
    code_for_wire, delivery_script, event_script, reply, resolve_script, response_err, response_ok,
    settle, EngineError, ErrorCode, Outcome, ParseFailure,
};
use serde_json::Value;

fn json(text: &str) -> Value {
    serde_json::from_str(text).expect("valid json")
}

#[test]
fn response_ok_pairs_id_with_result() {
    let response = response_ok(3, r#"{"process":"p_1"}"#);
    let value: Value = serde_json::from_str(&response).unwrap();
    assert_eq!(value, json(r#"{"id": 3, "result": {"process": "p_1"}}"#));
}

#[test]
fn response_err_pairs_id_with_wire_code() {
    let err = EngineError::new(ErrorCode::BoundaryViolation, "outside read boundary");
    let value: Value = serde_json::from_str(&response_err(4, &err)).unwrap();
    assert_eq!(
        value,
        json(r#"{"id": 4, "error": {"code": "BOUNDARY_VIOLATION", "message": "outside read boundary"}}"#)
    );
}

#[test]
fn all_error_codes_use_specced_wire_names() {
    let codes = [
        (ErrorCode::BoundaryViolation, "BOUNDARY_VIOLATION"),
        (ErrorCode::ReadOnlyMount, "READ_ONLY_MOUNT"),
        (ErrorCode::ValidationError, "VALIDATION_ERROR"),
        (ErrorCode::NotFound, "NOT_FOUND"),
        (ErrorCode::RunFailed, "RUN_FAILED"),
        (ErrorCode::InvalidRequest, "INVALID_REQUEST"),
        (ErrorCode::TransportClosed, "TRANSPORT_CLOSED"),
    ];
    for (code, wire) in codes {
        assert_eq!(code.wire(), wire);
    }
}

#[test]
fn resolve_script_injects_sdk_resolve() {
    assert_eq!(
        resolve_script(7, r#"{"id":7,"result":{}}"#),
        r#"__sdk.resolve(7, {"id":7,"result":{}});"#
    );
}

#[test]
fn event_script_injects_sdk_event() {
    assert_eq!(
        event_script(r#"{"event":"scope_changed","subscriptionId":"sub_1"}"#),
        r#"__sdk.event({"event":"scope_changed","subscriptionId":"sub_1"});"#
    );
}

#[test]
fn delivery_routes_by_message_shape() {
    let response = json(r#"{"id": 3, "result": {}}"#);
    let id = response.get("id").and_then(Value::as_u64);
    assert!(delivery_script(&response.to_string(), id).starts_with("__sdk.resolve(3, "));
    let event = json(r#"{"event": "scope_changed", "subscriptionId": "sub_1"}"#);
    let id = event.get("id").and_then(Value::as_u64);
    assert!(delivery_script(&event.to_string(), id).starts_with("__sdk.event("));
}

#[test]
fn scripts_escape_js_line_terminators() {
    let json = "{\"id\":1,\"result\":\"a\u{2028}b\u{2029}c\"}";
    let script = resolve_script(1, json);
    assert!(!script.contains('\u{2028}') && !script.contains('\u{2029}'));
    assert!(script.contains("\\u2028") && script.contains("\\u2029"));
}

#[test]
fn every_wire_name_reads_back_as_its_code_and_anything_else_is_an_invalid_request() {
    for code in [
        ErrorCode::BoundaryViolation,
        ErrorCode::ReadOnlyMount,
        ErrorCode::ValidationError,
        ErrorCode::NotFound,
        ErrorCode::RunFailed,
        ErrorCode::InvalidRequest,
        ErrorCode::TransportClosed,
    ] {
        assert_eq!(code_for_wire(code.wire()), code);
    }
    assert_eq!(code_for_wire("DB"), ErrorCode::InvalidRequest);
    assert_eq!(code_for_wire("not_found"), ErrorCode::InvalidRequest);
}

#[test]
fn a_response_line_is_written_exactly() {
    assert_eq!(response_ok(12, "[1,2]"), r#"{"id":12,"result":[1,2]}"#);
    let err = EngineError::new(ErrorCode::NotFound, "no \"x\"\n");
    assert_eq!(
        response_err(0, &err),
        r#"{"error":{"code":"NOT_FOUND","message":"no \"x\"\n"},"id":0}"#
    );
}

#[test]
fn a_parse_failure_with_an_id_is_answered_and_one_without_is_dropped() {
    let answered = settle(ParseFailure { id: Some(11), message: "unknown variant `snapshot`".into() });
    match answered {
        Outcome::Reply { id, response } => {
            assert_eq!(id, 11);
            let value: Value = serde_json::from_str(&response).unwrap();
            assert_eq!(value["error"]["code"], "INVALID_REQUEST");
            assert_eq!(value["error"]["message"], "unknown variant `snapshot`");
        }
        other => panic!("expected a reply, got {other:?}"),
    }
    assert_eq!(
        settle(ParseFailure { id: None, message: "malformed JSON".into() }),
        Outcome::Drop { reason: "malformed JSON".into() }
    );
}

#[test]
fn the_engine_s_answer_becomes_the_line_for_its_call() {
    assert_eq!(
        reply(5, Ok("{}".to_string())),
        Outcome::Reply { id: 5, response: r#"{"id":5,"result":{}}"#.into() }
    );
    let err = EngineError::new(ErrorCode::RunFailed, "boom");
    assert_eq!(
        reply(6, Err(err)),
        Outcome::Reply {
            id: 6,
            response: r#"{"error":{"code":"RUN_FAILED","message":"boom"},"id":6}"#.into()
        }
    );
}

#[test]
fn an_event_without_terminators_is_delivered_as_written() {
    assert_eq!(event_script("{}"), "__sdk.event({});");
    assert_eq!(resolve_script(18446744073709551615, "{}"), "__sdk.resolve(18446744073709551615, {});");
    assert_eq!(resolve_script(0, "\u{2028}"), "__sdk.resolve(0, \\u2028);");
}
