use host::probe::{script, Tally, HTML_LIMIT, NODE_LIMIT};

#[test]
fn the_script_answers_on_the_channel_the_surfaces_already_speak() {
    let js = script(HTML_LIMIT, NODE_LIMIT);
    assert!(js.contains("window.__wry_ipc.postMessage"), "{js}");
    assert!(js.contains("probe:"), "the envelope the rim reads back");
    assert!(js.contains("getComputedStyle"), "styles are the webview's answer, not React's");
}

#[test]
fn the_script_carries_its_parameters_as_data() {
    let js = script(120, 7);
    assert!(js.contains(".slice(0, 7)"));
    assert!(js.contains("> 120"));
    assert!(js.contains(r#""html, body, #root"#), "the selector list is a JS string: {js}");
    assert!(!js.contains("__SELECTORS__"), "every placeholder filled");
    assert!(!js.contains("__HTML_LIMIT__"));
    assert!(!js.contains("__NODE_LIMIT__"));
}

#[test]
fn a_bundle_is_never_shipped_whole() {
    let js = script(HTML_LIMIT, NODE_LIMIT);
    assert!(js.contains("querySelectorAll('script, style')"), "dense nodes are summarized");
}

#[test]
fn the_tally_completes_once_every_surface_has_answered() {
    let mut tally = Tally::new(2);
    assert!(!tally.record());
    assert!(tally.record());
    assert_eq!(tally.seen(), 2);
    // Complete is a moment, not a state a late answer repeats.
    assert!(!tally.record());
}

#[test]
fn the_script_fills_each_limit_where_its_placeholder_stood() {
    let js = script(6000, 48);
    assert!(js.contains(".slice(0, 48)"));
    assert!(js.contains("if (full > 6000) html = html.slice(0, 6000);"), "{js}");
    assert!(js.contains(
        r#"document.querySelectorAll("html, body, #root, .strip, .items, .item, .quiet, .tile, .head, .content, .rows, .row, .foot")"#
    ));
}

#[test]
fn a_tally_of_one_completes_on_the_first_report_and_a_tally_of_none_never_does() {
    let mut one = Tally::new(1);
    assert!(one.record());
    assert_eq!(one.seen(), 1);
    let mut none = Tally::new(0);
    assert!(!none.record());
    assert!(!none.record());
    assert_eq!(none.seen(), 2);
}
