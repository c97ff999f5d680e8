use host::transpile::{request_line, settle, TranspileAnswer};
use serde_json::Value;

fn answer(id: Option<u64>, ok: bool, code: Option<&str>, error: Option<&str>) -> TranspileAnswer {
    TranspileAnswer { id, ok, code: code.map(String::from), error: error.map(String::from) }
}

#[test]
fn a_request_is_one_json_object_naming_the_file() {
    let line = request_line(7, "/a/b/index.tsx");
    assert_eq!(line, r#"{"id":7,"path":"/a/b/index.tsx"}"#);
    let odd = request_line(12, "/x/\"q\"\n.ts");
    let parsed: Value = serde_json::from_str(&odd).expect("one json object");
    assert_eq!(parsed["id"].as_u64(), Some(12));
    assert_eq!(parsed["path"].as_str(), Some("/x/\"q\"\n.ts"));
    assert!(!odd.contains('\n'), "one request is one line");
}

#[test]
fn an_answer_makes_the_module_or_the_transpiler_s_own_words() {
    assert_eq!(settle(3, answer(Some(3), true, Some("export {}"), None)), Ok("export {}".to_string()));
    assert_eq!(
        settle(3, answer(Some(3), false, None, Some("Unexpected token"))),
        Err("Unexpected token".to_string())
    );
    assert_eq!(settle(3, answer(Some(3), false, None, None)), Err("unknown transpile failure".to_string()));
    assert_eq!(
        settle(3, answer(Some(3), true, None, Some("ignored"))),
        Err("transpiler answered without code".to_string())
    );
}

#[test]
fn an_answer_to_another_request_is_out_of_order() {
    assert_eq!(
        settle(3, answer(Some(4), true, Some("export {}"), None)),
        Err("transpiler answered out of order".to_string())
    );
    assert_eq!(
        settle(3, answer(None, true, Some("export {}"), None)),
        Err("transpiler answered out of order".to_string())
    );
}
