use host::page::{init_script, origin_script, ORIGIN_GLOBAL};

#[test]
fn the_init_script_installs_the_specced_ipc_name() {
    let script = init_script("p_1", "0", "0");
    assert!(script.contains("window.__wry_ipc"));
    assert!(script.contains("window.ipc.postMessage"));
}

#[test]
fn the_init_script_stamps_the_process_id_as_a_json_string() {
    assert!(init_script("p_1", "0", "0").contains(r#"window.__openlight_process = "p_1";"#));
    // An id is opaque: whatever it holds must survive as data, not source.
    assert!(init_script(r#"a"b\c"#, "0", "0").contains(r#""a\"b\\c""#));
}

#[test]
fn a_surface_is_told_where_in_the_window_it_sits() {
    assert!(init_script("p_1", "14", "10").contains("window.__openlight_origin = { x: 14, y: 10 };"));
    // The same sentence stands alone, for a surface that has moved.
    assert_eq!(origin_script("0", "0.5"), "window.__openlight_origin = { x: 0, y: 0.5 };");
}

#[test]
fn the_init_script_is_the_alias_the_id_and_the_origin_in_that_order() {
    assert_eq!(
        init_script("p_2", "1.5", "-3"),
        "window.__wry_ipc = { postMessage: (message) => window.ipc.postMessage(message) };\n\
         window.__openlight_process = \"p_2\";\n\
         window.__openlight_origin = { x: 1.5, y: -3 };"
    );
    assert_eq!(ORIGIN_GLOBAL, "__openlight_origin");
}
