use host::bootstrap::host_declaration;
use host::field::PlacementType;
use serde_json::Value;

#[test]
fn the_host_bootstrap_declares_its_archetypes_and_surfaces() {
    let d = host_declaration();
    let ids: Vec<&str> = d.chunks.iter().map(|c| c.id.as_str()).collect();
    assert_eq!(
        ids,
        [
            "host", "host/session", "host/tab", "host/tile", "host/overlay", "host/recipe", "engine/process",
            "host/read-tile", "host/sidebar", "host/inspector", "host/context-menu"
        ]
    );
    let session = d.chunks[1].spec.as_ref().unwrap();
    assert!(session.propagate && !session.ordered);
    assert_eq!(session.accepts, ["tab", "process"]);
    assert!(d.chunks[3].spec.as_ref().unwrap().ordered);
    assert!(d.chunks[6].body.is_none() && d.chunks[6].name.is_none(), "the anchor row");
    for c in d.chunks.iter().filter(|c| c.body.is_some()) {
        let body: Value = serde_json::from_str(c.body.as_ref().unwrap()).expect("bodies are JSON");
        assert!(body.is_object());
    }
    assert_eq!(d.placements.len(), 17);
    assert_eq!(d.placements.iter().filter(|p| p.type_ == PlacementType::Relates).count(), 4);
}

#[test]
fn demo_programs_declare_executable_and_runtime() {
    let d = host_declaration();
    let programs = d
        .chunks
        .iter()
        .filter(|c| d.placements.iter().any(|p| p.chunk == c.id && p.scope == "engine/program"))
        .count();
    assert_eq!(programs, 4);
    for name in ["read-tile", "sidebar", "inspector", "context-menu"] {
        let c = d.chunks.iter().find(|c| c.id == format!("host/{name}")).unwrap();
        let body: Value = serde_json::from_str(c.body.as_ref().unwrap()).unwrap();
        assert_eq!(body["executable"], format!("programs/{name}/src/index.tsx"));
        assert_eq!(body["runtime"], "webview");
        assert_eq!(body["timeout_ms"], 86_400_000);
        assert!(d.placements.iter().any(|p| p.chunk == c.id && p.scope == "engine/program"));
    }
    let menu = d.chunks.iter().find(|c| c.id == "host/context-menu").unwrap();
    let body: Value = serde_json::from_str(menu.body.as_ref().unwrap()).unwrap();
    assert_eq!(body["surface"], "overlay");
    let tile: Value = serde_json::from_str(d.chunks[7].body.as_ref().unwrap()).unwrap();
    assert!(tile.get("surface").is_none());
}

#[test]
fn each_first_party_project_has_its_routine_and_no_other_does() {
    let (root, engine) = host::bootstrap::routine_for("engine").unwrap();
    assert_eq!(root, "engine");
    let program = engine.chunks.iter().find(|c| c.id == "engine/program").unwrap();
    assert_eq!(program.spec.as_ref().unwrap().required, ["executable", "runtime"]);
    assert_eq!(engine.placements.len(), 6);
    let (root, agents) = host::bootstrap::routine_for("agents").unwrap();
    assert_eq!(root, "agents");
    assert_eq!(agents.chunks[2].spec.as_ref().unwrap().required, ["signal"]);
    assert_eq!(host::bootstrap::routine_for("host").unwrap().0, "host");
    assert!(host::bootstrap::routine_for("somebody-else").is_none());
}
