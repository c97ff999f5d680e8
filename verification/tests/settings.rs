use host::settings::{merged_settings, PREWARM_KEY, TIMINGS_KEY};

fn keys(items: &[&str]) -> Vec<String> {
    items.iter().map(|s| s.to_string()).collect()
}

#[test]
fn settings_grow_missing_defaults_and_never_overwrite() {
    let defaults = keys(&[PREWARM_KEY, "text", TIMINGS_KEY]);
    // Everything is missing: every default arrives.
    assert_eq!(merged_settings(&keys(&[]), &defaults), Some(vec![0, 1, 2]));
    // Nothing missing → no patch, no commit.
    assert_eq!(merged_settings(&defaults, &defaults), None);
    // A key the person set keeps its value, whatever it is: it is not absent.
    assert_eq!(merged_settings(&keys(&["text", PREWARM_KEY, TIMINGS_KEY]), &defaults), None);
    // A key this build grew arrives beside the person's own.
    assert_eq!(merged_settings(&keys(&["text", PREWARM_KEY, "theirs"]), &defaults), Some(vec![2]));
}

#[test]
fn the_settings_keys_are_named() {
    assert_eq!(PREWARM_KEY, "prewarm");
    assert_eq!(TIMINGS_KEY, "timings");
}
