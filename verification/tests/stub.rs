use host::field::{instance, instance_seq, relates, Placement, DEMO_SESSION, DEMO_TAB, ENGINE_PROCESS, ENGINE_PROGRAM, HOST_SESSION, HOST_TAB, HOST_TILE};
use host::protocol::ErrorCode;
use host::stub::{
    snapshot, unavailable, FixtureStub, Includes, ReadOpts, ScopeOpts, ScopeSelection, StubChunk, Subscriptions,
    FIXTURE_BRANCH,
};

fn chunk(id: &str, name: Option<&str>, texts: &[&str]) -> StubChunk {
    StubChunk {
        id: id.into(),
        name: name.map(String::from),
        texts: texts.iter().map(|t| t.to_string()).collect(),
    }
}

/// The hollow host's demo field: archetypes, three webview programs, three
/// running processes, and a tab whose tile tree splits twice, each chunk with
/// the strings its body holds.
fn demo() -> (Vec<StubChunk>, Vec<Placement>) {
    let chunks = vec![
        chunk(HOST_SESSION, Some("session"), &["The outer container. Restorable, shareable."]),
        chunk(HOST_TAB, Some("tab"), &["The root of a tile tree."]),
        chunk(HOST_TILE, Some("tile"), &["A split or leaf in the tile tree."]),
        chunk(ENGINE_PROGRAM, Some("program"), &["A chunk with an executable and a runtime declaration."]),
        chunk(ENGINE_PROCESS, Some("process"), &["One run of a program."]),
        chunk(DEMO_SESSION, Some("demo"), &["Hollow-host demo session"]),
        chunk(DEMO_TAB, Some("main"), &["main"]),
        chunk("prog-read-tile", Some("read-tile"), &["programs/read-tile/src/index.tsx", "webview"]),
        chunk("prog-sidebar", Some("sidebar"), &["programs/sidebar/src/index.tsx", "webview"]),
        chunk("prog-inspector", Some("inspector"), &["programs/inspector/src/index.tsx", "webview"]),
        chunk("proc-read-tile-1", None, &["running", "2026-07-30T09:00:00Z"]),
        chunk("proc-sidebar-1", None, &["running", "2026-07-30T09:00:01Z"]),
        chunk("proc-inspector-1", None, &["running", "2026-07-30T09:00:02Z"]),
        chunk("tile-root", None, &["horizontal"]),
        chunk("tile-reader", None, &[]),
        chunk("tile-right", None, &["vertical"]),
        chunk("tile-side", None, &[]),
        chunk("tile-inspect", None, &[]),
    ];
    let placements = vec![
        instance(DEMO_SESSION, HOST_SESSION),
        instance(DEMO_TAB, HOST_TAB),
        instance(DEMO_TAB, DEMO_SESSION),
        instance("prog-read-tile", ENGINE_PROGRAM),
        instance("prog-sidebar", ENGINE_PROGRAM),
        instance("prog-inspector", ENGINE_PROGRAM),
        instance("proc-read-tile-1", ENGINE_PROCESS),
        instance("proc-read-tile-1", "prog-read-tile"),
        instance("proc-read-tile-1", DEMO_SESSION),
        instance("proc-sidebar-1", ENGINE_PROCESS),
        instance("proc-sidebar-1", "prog-sidebar"),
        instance("proc-sidebar-1", DEMO_SESSION),
        instance("proc-inspector-1", ENGINE_PROCESS),
        instance("proc-inspector-1", "prog-inspector"),
        instance("proc-inspector-1", DEMO_SESSION),
        instance("tile-root", HOST_TILE),
        instance("tile-reader", HOST_TILE),
        instance("tile-right", HOST_TILE),
        instance("tile-side", HOST_TILE),
        instance("tile-inspect", HOST_TILE),
        instance_seq("tile-root", DEMO_TAB, 1),
        instance_seq("tile-reader", "tile-root", 1),
        instance_seq("tile-right", "tile-root", 2),
        instance_seq("tile-side", "tile-right", 1),
        instance_seq("tile-inspect", "tile-right", 2),
        relates("tile-reader", "proc-read-tile-1"),
        relates("tile-side", "proc-sidebar-1"),
        relates("tile-inspect", "proc-inspector-1"),
    ];
    (chunks, placements)
}

fn stub() -> FixtureStub {
    let (chunks, placements) = demo();
    FixtureStub::new(chunks, placements)
}

fn ids<'a>(stub: &'a FixtureStub, result: &ScopeSelection) -> Vec<&'a str> {
    result.chunks.iter().map(|&k| stub.chunks[k].id.as_str()).collect()
}

#[test]
fn scope_returns_everything_placed_on_the_root() {
    // demo-session holds the tab and the three processes.
    let stub = stub();
    let result = stub.scope_result(&vec![DEMO_SESSION.into()], &ScopeOpts::default());
    let got = ids(&stub, &result);
    for expected in ["tab-main", "proc-read-tile-1", "proc-sidebar-1", "proc-inspector-1"] {
        assert!(got.contains(&expected), "missing {expected} in {got:?}");
    }
    assert_eq!(result.in_scope, 4);
    assert_eq!(result.total, 4);
    assert_eq!(result.head, "fixture-head");
}

#[test]
fn scope_intersection_narrows() {
    let stub = stub();
    let result = stub.scope_result(&vec![DEMO_SESSION.into(), "prog-read-tile".into()], &ScopeOpts::default());
    assert_eq!(ids(&stub, &result), ["proc-read-tile-1"]);
}

#[test]
fn scope_exclude_subtracts() {
    let stub = stub();
    let opts = ScopeOpts { exclude: Some(vec!["prog-read-tile".into()]), ..Default::default() };
    let result = stub.scope_result(&vec![DEMO_SESSION.into()], &opts);
    assert!(!ids(&stub, &result).contains(&"proc-read-tile-1"));
    assert_eq!(result.in_scope, 3);
}

#[test]
fn empty_scopes_with_match_is_whole_field_fts() {
    let stub = stub();
    let opts = ScopeOpts { match_: Some("inspector".into()), ..Default::default() };
    let result = stub.scope_result(&vec![], &opts);
    assert_eq!(ids(&stub, &result), ["prog-inspector"]);
}

#[test]
fn empty_scopes_without_match_is_empty() {
    let result = stub().scope_result(&vec![], &ScopeOpts::default());
    assert_eq!(result.in_scope, 0);
    assert!(result.chunks.is_empty());
}

#[test]
fn ordered_children_come_back_in_seq_order() {
    let stub = stub();
    let result = stub.scope_result(&vec!["tile-root".into()], &ScopeOpts::default());
    assert_eq!(ids(&stub, &result), ["tile-reader", "tile-right"]);
}

#[test]
fn limit_windows_tail_first() {
    let stub = stub();
    let opts = ScopeOpts { limit: Some(1), ..Default::default() };
    let result = stub.scope_result(&vec!["tile-root".into()], &opts);
    assert_eq!(ids(&stub, &result), ["tile-right"]);
    assert_eq!(result.in_scope, 2);
    assert_eq!(result.total, 2);

    let opts = ScopeOpts { limit: Some(1), offset: Some(1), ..Default::default() };
    let result = stub.scope_result(&vec!["tile-root".into()], &opts);
    assert_eq!(ids(&stub, &result), ["tile-reader"], "offset pages backward from the tail");
}

#[test]
fn include_body_false_is_a_survey_read() {
    let stub = stub();
    let opts = ScopeOpts { includes: Some(Includes { body: Some(false) }), ..Default::default() };
    let result = stub.scope_result(&vec![DEMO_SESSION.into()], &opts);
    assert!(!result.with_body);
    assert!(!result.chunks.is_empty());
}

#[test]
fn chunk_items_carry_their_placements() {
    let stub = stub();
    let result = stub.scope_result(&vec![DEMO_SESSION.into(), "prog-read-tile".into()], &ScopeOpts::default());
    let placements = stub.placements_of(&stub.chunks[result.chunks[0]].id);
    assert!(placements.iter().any(|p| p.scope_id == ENGINE_PROCESS && p.type_ == "instance"));
}

#[test]
fn instance_and_relates_counted_apart() {
    let stub = stub();
    let result = stub.scope_result(&vec!["proc-read-tile-1".into()], &ScopeOpts::default());
    assert_eq!(result.in_scope_instance, 0);
    assert_eq!(result.in_scope_relates, 1);
    assert_eq!(ids(&stub, &result), ["tile-reader"]);
}

#[test]
fn get_returns_the_chunk_or_null() {
    let stub = stub();
    let (k, with_body) = stub.get("prog-sidebar", &ReadOpts::default()).unwrap().expect("a chunk");
    assert_eq!(stub.chunks[k].name.as_deref(), Some("sidebar"));
    assert!(with_body);
    assert!(stub.chunks[k].texts.iter().any(|t| t == "webview"));
    assert_eq!(stub.get("ghost", &ReadOpts::default()).unwrap(), None);
}

#[test]
fn get_honors_include_body_false() {
    let opts = ReadOpts { includes: Some(Includes { body: Some(false) }), ..Default::default() };
    let stub = stub();
    let (k, with_body) = stub.get("prog-sidebar", &opts).unwrap().expect("a chunk");
    assert_eq!(stub.chunks[k].name.as_deref(), Some("sidebar"));
    assert!(!with_body, "survey read carries no body");
}

#[test]
fn get_honors_the_fixture_branch_by_name() {
    let opts = ReadOpts { branch: Some(FIXTURE_BRANCH.into()), ..Default::default() };
    let stub = stub();
    let (k, _) = stub.get("prog-sidebar", &opts).unwrap().expect("a chunk");
    assert_eq!(stub.chunks[k].name.as_deref(), Some("sidebar"));
}

/// The fixture field is one snapshot on one branch. Asking for another
/// commit or another branch is refused, not silently answered from it.
#[test]
fn reads_refuse_history_and_other_branches() {
    let stub = stub();
    let at = ReadOpts { at: Some("commit_2".into()), ..Default::default() };
    let other = ReadOpts { branch: Some("work".into()), ..Default::default() };
    for (case, opts) in [("at", at), ("branch", other)] {
        let err = stub.get("prog-sidebar", &opts).unwrap_err();
        assert_eq!(err.code, ErrorCode::InvalidRequest, "get {case}");
        assert!(err.message.contains("fixture stub"), "get {case}: {}", err.message);
    }
    let scope_at = ScopeOpts { at: Some("commit_2".into()), ..Default::default() };
    let scope_branch = ScopeOpts { branch: Some("work".into()), ..Default::default() };
    for (case, opts) in [("at", scope_at), ("branch", scope_branch)] {
        let err = stub.scope(&vec![DEMO_SESSION.into()], &opts).unwrap_err();
        assert_eq!(err.code, ErrorCode::InvalidRequest, "scope {case}");
    }
    assert!(snapshot(Some(FIXTURE_BRANCH), None).is_ok());
    assert!(snapshot(None, None).is_ok());
    assert_eq!(
        snapshot(Some("work"), None).unwrap_err().message,
        "fixture stub: branch 'work' needs the real engine \u{2014} the fixture field is on 'main'"
    );
    assert_eq!(
        snapshot(Some("work"), Some("c_9")).unwrap_err().message,
        "fixture stub: reading at commit 'c_9' needs the real engine"
    );
}

#[test]
fn a_scope_read_on_the_fixture_branch_is_answered() {
    let stub = stub();
    let opts = ScopeOpts { branch: Some(FIXTURE_BRANCH.into()), ..Default::default() };
    let selection = stub.scope(&vec!["tile-root".into()], &opts).unwrap();
    assert_eq!(ids(&stub, &selection), ["tile-reader", "tile-right"]);
}

#[test]
fn subscribe_returns_monotonic_ids_and_unsubscribe_is_idempotent() {
    let stub = stub();
    let mut subs = Subscriptions::new();
    let first = subs.subscribe(&stub, &vec![DEMO_SESSION.into()]).unwrap();
    let second = subs.subscribe(&stub, &vec!["tile-root".into()]).unwrap();
    assert_eq!(first, "sub_1");
    assert_eq!(second, "sub_2");
    subs.unsubscribe("sub_1");
    subs.unsubscribe("sub_1");
    assert_eq!(subs.issued_count(), 2);
}

#[test]
fn subscribe_to_missing_scope_is_not_found() {
    let stub = stub();
    let mut subs = Subscriptions::new();
    let err = subs.subscribe(&stub, &vec!["tile-root".into(), "ghost".into(), "phantom".into()]).unwrap_err();
    assert_eq!(err.code, ErrorCode::NotFound);
    assert_eq!(err.message, "scope 'ghost' does not exist");
    assert_eq!(subs.issued_count(), 0, "a refused subscription issues no id");
    assert_eq!(subs.subscribe(&stub, &vec![]).unwrap(), "sub_1");
}

#[test]
fn engine_only_ops_answer_with_an_explicit_error() {
    for op in ["commit", "run", "await", "cancel", "exit", "read_batch"] {
        let err = unavailable(op);
        assert_eq!(err.code, ErrorCode::InvalidRequest, "{op}");
        assert!(err.message.contains("fixture stub"), "{op}: {}", err.message);
    }
    assert_eq!(
        unavailable("run").message,
        "fixture stub: 'run' needs the real engine \u{2014} not available in the hollow host"
    );
}

#[test]
fn a_search_is_case_blind_and_reads_names_and_body_strings() {
    let stub = stub();
    let by_name = stub.scope_result(&vec![], &ScopeOpts { match_: Some("SIDEBAR".into()), ..Default::default() });
    assert_eq!(ids(&stub, &by_name), ["prog-sidebar"]);
    let by_body = stub.scope_result(&vec![DEMO_SESSION.into()], &ScopeOpts { match_: Some("09:00:01".into()), ..Default::default() });
    assert_eq!(ids(&stub, &by_body), ["proc-sidebar-1"]);
}

#[test]
fn unordered_members_sort_by_id_and_an_offset_past_the_start_empties_the_window() {
    let stub = stub();
    let result = stub.scope_result(&vec![ENGINE_PROGRAM.into()], &ScopeOpts::default());
    assert_eq!(ids(&stub, &result), ["prog-inspector", "prog-read-tile", "prog-sidebar"]);
    assert_eq!(result.in_scope_instance, 3);
    let past = stub.scope_result(&vec![ENGINE_PROGRAM.into()], &ScopeOpts { limit: Some(2), offset: Some(5), ..Default::default() });
    assert!(past.chunks.is_empty());
    assert_eq!(past.in_scope, 3);
    let wide = stub.scope_result(&vec![ENGINE_PROGRAM.into()], &ScopeOpts { limit: Some(10), offset: Some(1), ..Default::default() });
    assert_eq!(ids(&stub, &wide), ["prog-inspector", "prog-read-tile"]);
}
