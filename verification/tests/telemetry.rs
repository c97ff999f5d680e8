use host::telemetry::{categories, category_id, events, ROOT};

fn names(items: &[&str]) -> Vec<String> {
    items.iter().map(|s| s.to_string()).collect()
}

#[test]
fn each_category_is_listed_once_in_sorted_order() {
    let stages = names(&["mount-command", "first-paint", "mount-command", "first-ipc"]);
    assert_eq!(categories(&stages), ["first-ipc", "first-paint", "mount-command"]);
    assert!(categories(&names(&[])).is_empty());
}

#[test]
fn events_are_numbered_on_their_process_and_typed_by_category() {
    let es = events("p_1", &names(&["mount-command", "first-paint"]));
    assert_eq!(es.len(), 2);
    assert_eq!((es[0].id.as_str(), es[0].category.as_str(), es[0].seq), ("p_1-t0", "timing-mount-command", 1));
    assert_eq!((es[1].id.as_str(), es[1].category.as_str(), es[1].seq), ("p_1-t1", "timing-first-paint", 2));
    assert_eq!(category_id("first-paint"), "timing-first-paint");
    assert_eq!(ROOT, "timing-event");
}
