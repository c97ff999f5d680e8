use host::workspace::{workspace_plan, LEAF_ID, SESSION_ID, TAB_ID};

fn keys(items: &[&str]) -> Vec<String> {
    items.iter().map(|s| s.to_string()).collect()
}

#[test]
fn a_first_launch_creates_every_piece_in_one_commit() {
    let defaults = keys(&["prewarm", "text", "timings"]);
    let plan = workspace_plan(false, false, false, &None, &defaults);
    assert!(plan.create_session && plan.create_tab && plan.create_leaf && plan.create_settings);
    assert!(!plan.point_session_at_tab, "a new session already names the tab");
    assert_eq!(plan.grow_settings, Some(vec![0, 1, 2]));
    assert!(plan.commits);
}

#[test]
fn a_complete_workspace_writes_nothing() {
    let defaults = keys(&["prewarm", "text", "timings"]);
    let plan = workspace_plan(true, true, true, &Some(keys(&["timings", "text", "prewarm", "mine"])), &defaults);
    assert!(!plan.create_session && !plan.create_tab && !plan.create_leaf && !plan.create_settings);
    assert_eq!(plan.grow_settings, None);
    assert!(!plan.commits);
}

#[test]
fn an_older_session_is_pointed_at_its_new_tab_and_its_settings_grow() {
    let defaults = keys(&["prewarm", "text", "timings"]);
    let plan = workspace_plan(true, false, true, &Some(keys(&["text"])), &defaults);
    assert!(plan.create_tab && plan.point_session_at_tab);
    assert!(!plan.create_session && !plan.create_leaf && !plan.create_settings);
    assert_eq!(plan.grow_settings, Some(vec![0, 2]));
    assert!(plan.commits);
    assert_eq!((SESSION_ID, TAB_ID, LEAF_ID), ("session-main", "tab-main", "tile-first"));
}
