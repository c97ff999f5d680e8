use host::underlay::{init_script, script};
use serde_json::Value;

/// A rectangle as the rim writes it: one JSON object.
fn rect(x: f64, y: f64, width: f64, height: f64) -> String {
    let mut m = serde_json::Map::new();
    m.insert("x".to_string(), Value::from(x));
    m.insert("y".to_string(), Value::from(y));
    m.insert("width".to_string(), Value::from(width));
    m.insert("height".to_string(), Value::from(height));
    serde_json::to_string(&Value::Object(m)).unwrap()
}

#[test]
fn the_rim_says_rectangles_and_nothing_else() {
    let js = script(&[rect(240.0, 14.0, 1000.0, 800.0), rect(10.5, 0.0, 1.0, 2.0)]);
    let payload = js
        .strip_prefix("window.__openlight_underlay(")
        .and_then(|rest| rest.strip_suffix(");"))
        .expect("one call, one argument");
    let sent: Value = serde_json::from_str(payload).expect("the argument is data");
    let expected: Value = serde_json::from_str(
        r#"[
            { "x": 240.0, "y": 14.0, "width": 1000.0, "height": 800.0 },
            { "x": 10.5, "y": 0.0, "width": 1.0, "height": 2.0 }
        ]"#,
    )
    .unwrap();
    assert_eq!(sent, expected);
    for word in ["shadow", "radius", "rgba", "px", "style"] {
        assert!(!js.contains(word), "the rim leaked {word} into the underlay: {js}");
    }
}

#[test]
fn an_empty_layout_clears_the_auras() {
    assert_eq!(script(&[]), "window.__openlight_underlay([]);");
}

#[test]
fn the_first_layout_rides_in_before_the_page_exists() {
    let js = init_script(&[rect(1.0, 2.0, 3.0, 4.0)]);
    assert!(js.contains("window.__openlight_underlay ="), "the global is defined: {js}");
    assert!(js.contains(r#""width":3.0"#), "the buffer the module drains: {js}");
    assert!(js.contains("window.__openlight_rects = rects"), "{js}");
}

#[test]
fn several_rectangles_are_joined_by_commas() {
    let js = script(&["{\"a\":1}".to_string(), "{\"b\":2}".to_string(), "{}".to_string()]);
    assert_eq!(js, "window.__openlight_underlay([{\"a\":1},{\"b\":2},{}]);");
    let first = init_script(&[]);
    assert_eq!(
        first,
        "window.__openlight_rects = [];\nwindow.__openlight_underlay = (rects) => { window.__openlight_rects = rects; };"
    );
}
