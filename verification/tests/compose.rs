use host::boot::{surface_named, Surface};
use host::compose::{body_shape, leaf_process, tile_inputs, BodyField, ChunkFacts, ComposeError, ProcessInfo};
use host::field::{instance, instance_seq, relates, PlacementType, ENGINE_PROCESS, ENGINE_PROGRAM, HOST_TILE};
use host::geometry::{self, Direction, TileBody};
use serde_json::Value;

fn facts(id: &str, name: Option<&str>, layout: Option<(BodyField<String>, BodyField<f64>)>, status: Option<&str>) -> ChunkFacts<f64> {
    ChunkFacts {
        id: id.into(),
        name: name.map(String::from),
        layout,
        status: status.map(String::from),
    }
}

#[test]
fn a_program_reaches_the_overlay_layer_only_by_saying_so() {
    let surface_of = |body: Option<&str>| -> Surface {
        let value: Option<Value> = body.map(|b| serde_json::from_str(b).unwrap());
        surface_named(value.as_ref().and_then(|b| b.get("surface")).and_then(|s| s.as_str()))
    };
    assert_eq!(surface_of(Some(r#"{ "surface": "overlay" }"#)), Surface::Overlay);
    assert_eq!(surface_of(Some(r#"{ "runtime": "webview" }"#)), Surface::Tile);
    assert_eq!(surface_of(Some(r#"{ "surface": "tile" }"#)), Surface::Tile);
    assert_eq!(surface_of(Some(r#"{ "surface": 1 }"#)), Surface::Tile);
    assert_eq!(surface_of(None), Surface::Tile);
}

#[test]
fn placements_are_built_as_named() {
    let p = instance_seq("tile-a", "tab", 2);
    assert_eq!((p.chunk.as_str(), p.scope.as_str(), p.type_, p.seq), ("tile-a", "tab", PlacementType::Instance, Some(2)));
    let r = relates("tile-a", "proc-1");
    assert_eq!((r.type_, r.seq), (PlacementType::Relates, None));
    assert_eq!(instance("a", "b").seq, None);
}

#[test]
fn bad_tile_body_is_an_error() {
    let chunks = vec![facts("t", None, Some((BodyField::Value("diagonal".into()), BodyField::Value(0.5))), None)];
    let placements = vec![instance("t", HOST_TILE)];
    assert_eq!(
        tile_inputs(&chunks, &placements, HOST_TILE),
        Err(ComposeError::BadTileBody { id: "t".into() })
    );
}

#[test]
fn tile_bodies_read_as_splits_or_leaves() {
    assert_eq!(body_shape::<f64>("t", &None), Ok(TileBody::Leaf));
    assert_eq!(body_shape::<f64>("t", &Some((BodyField::Absent, BodyField::Absent))), Ok(TileBody::Leaf));
    assert_eq!(
        body_shape("t", &Some((BodyField::Value("vertical".to_string()), BodyField::Value(0.25)))),
        Ok(TileBody::Split { direction: Direction::Vertical, ratio: 0.25 })
    );
    assert_eq!(
        body_shape::<f64>("t", &Some((BodyField::Value("horizontal".to_string()), BodyField::Other))),
        Err(ComposeError::BadTileBody { id: "t".into() })
    );
    assert_eq!(
        body_shape::<f64>("t", &Some((BodyField::Absent, BodyField::Value(0.5)))),
        Err(ComposeError::BadTileBody { id: "t".into() })
    );
}

#[test]
fn typing_and_relates_placements_stay_out_of_the_tree() {
    let chunks = vec![
        facts("tile-root", None, Some((BodyField::Value("horizontal".into()), BodyField::Value(0.55))), None),
        facts("tile-reader", None, None, None),
        facts("proc-1", None, None, Some("running")),
    ];
    let placements = vec![
        instance("tile-root", HOST_TILE),
        instance("tile-reader", HOST_TILE),
        instance_seq("tile-root", "tab-main", 1),
        instance_seq("tile-reader", "tile-root", 1),
        relates("tile-reader", "proc-1"),
        instance("tile-reader", "tile-root"),
    ];
    let (tiles, tree) = tile_inputs(&chunks, &placements, HOST_TILE).unwrap();
    assert_eq!(tiles.len(), 2);
    assert_eq!(tiles[0].body, TileBody::Split { direction: Direction::Horizontal, ratio: 0.55 });
    assert_eq!(tiles[1].body, TileBody::Leaf);
    assert_eq!(
        tree,
        vec![
            geometry::Placement { tile: "tile-root".into(), scope: "tab-main".into(), seq: 1 },
            geometry::Placement { tile: "tile-reader".into(), scope: "tile-root".into(), seq: 1 },
            geometry::Placement { tile: "tile-reader".into(), scope: "tile-root".into(), seq: 0 },
        ]
    );
}

#[test]
fn leaves_resolve_to_their_processes_and_programs() {
    let chunks = vec![
        facts("prog-read-tile", Some("read-tile"), None, None),
        facts("prog-anon", None, None, None),
        facts("proc-1", None, None, Some("running")),
        facts("proc-2", None, None, None),
    ];
    let placements = vec![
        instance("prog-read-tile", ENGINE_PROGRAM),
        instance("prog-anon", ENGINE_PROGRAM),
        instance("proc-1", ENGINE_PROCESS),
        instance("proc-1", "prog-read-tile"),
        instance("proc-2", ENGINE_PROCESS),
        instance("proc-2", "prog-anon"),
        relates("tile-a", "proc-1"),
        relates("tile-b", "proc-2"),
        relates("tile-c", "not-a-process"),
    ];
    assert_eq!(
        leaf_process(&chunks, &placements, "tile-a", ENGINE_PROCESS, ENGINE_PROGRAM),
        Some(ProcessInfo { process: "proc-1".into(), program: "read-tile".into(), status: Some("running".into()) })
    );
    assert_eq!(
        leaf_process(&chunks, &placements, "tile-b", ENGINE_PROCESS, ENGINE_PROGRAM),
        Some(ProcessInfo { process: "proc-2".into(), program: "prog-anon".into(), status: None })
    );
    assert_eq!(leaf_process(&chunks, &placements, "tile-c", ENGINE_PROCESS, ENGINE_PROGRAM), None);
    assert_eq!(leaf_process(&chunks, &placements, "tile-root", ENGINE_PROCESS, ENGINE_PROGRAM), None);
}

#[test]
fn the_stand_in_page_names_its_process_and_carries_ids_as_data() {
    let page = host::page::demo_page("read-tile", "p\"1", "s_1", false);
    assert!(page.contains("<h1>read-tile</h1>"), "{page}");
    assert!(page.contains("process p\"1</div>"), "{page}");
    assert!(page.contains(r#"const PROC = "p\"1";"#), "{page}");
    assert!(page.contains(r#"const SESSION = "s_1";"#), "{page}");
    assert!(page.contains("if (false) post("), "{page}");
    assert!(!page.contains("__PROGRAM__") && !page.contains("__AWAIT_JS__"));
    let fixture = host::page::fixture_page(&ProcessInfo {
        process: "proc-1".into(),
        program: "inspector".into(),
        status: None,
    });
    assert!(fixture.contains(r#"const SESSION = "demo-session";"#));
    assert!(fixture.contains("if (true) post("));
}
