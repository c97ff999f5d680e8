use host::field::{demo_placements, PlacementType, DEMO_SESSION, DEMO_TAB, ENGINE_PROGRAM, HOST_TILE};

#[test]
fn each_leaf_tile_relates_one_process() {
    let placements = demo_placements();
    for leaf in ["tile-reader", "tile-side", "tile-inspect"] {
        let displayed: Vec<_> = placements.iter().filter(|p| p.chunk == leaf && p.type_ == PlacementType::Relates).collect();
        assert_eq!(displayed.len(), 1, "{leaf} must display exactly one process");
    }
}

#[test]
fn the_demo_field_places_three_programs_five_tiles_and_one_tree() {
    let placements = demo_placements();
    assert_eq!(placements.len(), 28);
    let on = |scope: &str| placements.iter().filter(|p| p.scope == scope && p.type_ == PlacementType::Instance).count();
    assert_eq!(on(ENGINE_PROGRAM), 3);
    assert_eq!(on(HOST_TILE), 5);
    let root: Vec<_> = placements.iter().filter(|p| p.scope == DEMO_TAB && p.seq.is_some()).collect();
    assert_eq!(root.len(), 1);
    assert_eq!((root[0].chunk.as_str(), root[0].seq), ("tile-root", Some(1)));
    assert!(placements.iter().any(|p| p.chunk == DEMO_TAB && p.scope == DEMO_SESSION));
}
