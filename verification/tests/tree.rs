use host::field::PlacementType;
use host::geometry;
use host::tree::{displayed_process, resolve_leaf, tree_edges, ParentRead, PlacementRead, TileRead};

fn p(scope: &str, type_: PlacementType, seq: Option<i64>) -> PlacementRead {
    PlacementRead { scope: scope.into(), type_, seq }
}

fn tiles() -> Vec<TileRead> {
    vec![
        TileRead {
            id: "tile-root".into(),
            placements: vec![p("host/tile", PlacementType::Instance, None), p("tab-main", PlacementType::Instance, Some(1))],
        },
        TileRead {
            id: "tile-a".into(),
            placements: vec![
                p("host/tile", PlacementType::Instance, None),
                p("tile-root", PlacementType::Instance, None),
                p("proc-old", PlacementType::Relates, None),
                p("proc-new", PlacementType::Relates, None),
                p("engine/mount/x", PlacementType::Relates, None),
            ],
        },
        TileRead { id: "tile-b".into(), placements: vec![p("tile-root", PlacementType::Instance, Some(2)), p("other-tab", PlacementType::Instance, Some(1))] },
    ]
}

#[test]
fn edges_are_instances_onto_the_tab_or_a_tile() {
    let edges = tree_edges("tab-main", &tiles());
    assert_eq!(
        edges,
        vec![
            geometry::Placement { tile: "tile-root".into(), scope: "tab-main".into(), seq: 1 },
            geometry::Placement { tile: "tile-a".into(), scope: "tile-root".into(), seq: 0 },
            geometry::Placement { tile: "tile-b".into(), scope: "tile-root".into(), seq: 2 },
        ]
    );
}

#[test]
fn a_leaf_displays_its_last_relation_that_is_no_mount_row() {
    let t = tiles();
    assert_eq!(displayed_process(&t, "tile-a").as_deref(), Some("proc-new"));
    assert_eq!(displayed_process(&t, "tile-b"), None);
    assert_eq!(displayed_process(&t, "ghost"), None);
}

#[test]
fn the_program_is_the_first_parent_declaring_executable_and_runtime() {
    let parent = |id: &str, exe: bool, run: bool| ParentRead {
        id: id.into(),
        name: Some(format!("{id}-name")),
        has_executable: exe,
        has_runtime: run,
        executable: if exe { Some(format!("{id}/index.tsx")) } else { None },
    };
    let parents = vec![None, Some(parent("engine/process", false, false)), Some(parent("half", true, false)), Some(parent("prog", true, true)), Some(parent("later", true, true))];
    let v = resolve_leaf("tile-a".into(), Some("p_1".into()), Some("running".into()), &parents);
    assert_eq!(v.program.as_deref(), Some("prog"));
    assert_eq!(v.program_name.as_deref(), Some("prog-name"));
    assert_eq!(v.executable.as_deref(), Some("prog/index.tsx"));
    assert_eq!((v.tile.as_str(), v.process.as_deref(), v.status.as_deref()), ("tile-a", Some("p_1"), Some("running")));
    let none = resolve_leaf("tile-b".into(), None, None, &vec![]);
    assert!(none.program.is_none() && none.program_name.is_none() && none.executable.is_none());
}
