use host::geometry::{
    first_leaf, leaf_ids, parse, parse_bounded, Direction, ParseError, Placement, Tile, TileBody,
    TileChunk,
};

fn chunk(id: &str, body: TileBody<f64>) -> TileChunk<f64> {
    TileChunk { id: id.into(), body }
}

fn place(tile: &str, scope: &str, seq: i64) -> Placement {
    Placement { tile: tile.into(), scope: scope.into(), seq }
}

const H_SPLIT: TileBody<f64> = TileBody::Split { direction: Direction::Horizontal, ratio: 0.5 };

#[test]
fn single_leaf_on_tab() {
    let tree = parse("tab", &vec![chunk("a", TileBody::Leaf)], &vec![place("a", "tab", 1)]);
    assert_eq!(tree, Ok(Tile::Leaf { id: "a".into() }));
}

#[test]
fn split_children_ordered_by_seq_not_input_order() {
    let tiles = vec![chunk("s", H_SPLIT), chunk("a", TileBody::Leaf), chunk("b", TileBody::Leaf)];
    // placements given seq-last first
    let placements = vec![place("s", "tab", 1), place("b", "s", 2), place("a", "s", 1)];
    let tree = parse("tab", &tiles, &placements).unwrap();
    match tree {
        Tile::Split { first, second, .. } => {
            assert_eq!(*first, Tile::Leaf { id: "a".into() });
            assert_eq!(*second, Tile::Leaf { id: "b".into() });
        }
        other => panic!("expected split, got {other:?}"),
    }
}

#[test]
fn nested_split_parses() {
    let tiles = vec![
        chunk("root", H_SPLIT),
        chunk("a", TileBody::Leaf),
        chunk("inner", TileBody::Split { direction: Direction::Vertical, ratio: 0.3 }),
        chunk("b", TileBody::Leaf),
        chunk("c", TileBody::Leaf),
    ];
    let placements = vec![
        place("root", "tab", 1),
        place("a", "root", 1),
        place("inner", "root", 2),
        place("b", "inner", 1),
        place("c", "inner", 2),
    ];
    let tree = parse("tab", &tiles, &placements).unwrap();
    let expected = Tile::Split {
        id: "root".into(),
        direction: Direction::Horizontal,
        ratio: 0.5,
        first: Box::new(Tile::Leaf { id: "a".into() }),
        second: Box::new(Tile::Split {
            id: "inner".into(),
            direction: Direction::Vertical,
            ratio: 0.3,
            first: Box::new(Tile::Leaf { id: "b".into() }),
            second: Box::new(Tile::Leaf { id: "c".into() }),
        }),
    };
    assert_eq!(tree, expected);
}

#[test]
fn placements_on_other_scopes_ignored() {
    let tiles = vec![chunk("a", TileBody::Leaf), chunk("x", TileBody::Leaf)];
    let placements = vec![place("a", "tab", 1), place("x", "other-tab", 1)];
    assert_eq!(parse("tab", &tiles, &placements), Ok(Tile::Leaf { id: "a".into() }));
}

#[test]
fn split_must_hold_exactly_two_children() {
    let tiles = vec![chunk("s", H_SPLIT), chunk("a", TileBody::Leaf)];
    let one = vec![place("s", "tab", 1), place("a", "s", 1)];
    assert_eq!(
        parse("tab", &tiles, &one),
        Err(ParseError::SplitChildren { id: "s".into(), count: 1 })
    );

    let tiles3 = vec![
        chunk("s", H_SPLIT),
        chunk("a", TileBody::Leaf),
        chunk("b", TileBody::Leaf),
        chunk("c", TileBody::Leaf),
    ];
    let three = vec![place("s", "tab", 1), place("a", "s", 1), place("b", "s", 2), place("c", "s", 3)];
    assert_eq!(
        parse("tab", &tiles3, &three),
        Err(ParseError::SplitChildren { id: "s".into(), count: 3 })
    );
}

#[test]
fn leaf_holds_no_children() {
    let tiles = vec![chunk("a", TileBody::Leaf), chunk("b", TileBody::Leaf)];
    let placements = vec![place("a", "tab", 1), place("b", "a", 1)];
    assert_eq!(parse("tab", &tiles, &placements), Err(ParseError::LeafChildren("a".into())));
}

#[test]
fn placement_of_unknown_chunk_rejected() {
    let placements = vec![place("ghost", "tab", 1)];
    assert_eq!(parse::<f64>("tab", &vec![], &placements), Err(ParseError::MissingChunk("ghost".into())));
}

#[test]
fn tab_needs_exactly_one_root() {
    assert_eq!(parse::<f64>("tab", &vec![], &vec![]), Err(ParseError::NoRoot));

    let tiles = vec![chunk("a", TileBody::Leaf), chunk("b", TileBody::Leaf)];
    let placements = vec![place("a", "tab", 1), place("b", "tab", 2)];
    assert_eq!(parse("tab", &tiles, &placements), Err(ParseError::MultipleRoots));
}

#[test]
fn equal_seqs_keep_their_input_order() {
    let tiles = vec![chunk("s", H_SPLIT), chunk("a", TileBody::Leaf), chunk("b", TileBody::Leaf)];
    let placements = vec![place("s", "tab", 7), place("b", "s", 3), place("a", "s", 3)];
    let tree = parse("tab", &tiles, &placements).unwrap();
    assert_eq!(leaf_ids(&tree), vec!["b".to_string(), "a".to_string()]);
    assert_eq!(first_leaf(&tree), "b");
}

#[test]
fn a_tile_that_is_its_own_ancestor_never_ends_the_walk() {
    let tiles = vec![chunk("s", H_SPLIT), chunk("a", TileBody::Leaf)];
    let placements = vec![place("s", "tab", 1), place("s", "s", 1), place("a", "s", 2)];
    assert_eq!(parse_bounded("tab", &tiles, &placements), None);
}

#[test]
fn leaves_come_in_walk_order() {
    let tiles = vec![
        chunk("root", H_SPLIT),
        chunk("a", TileBody::Leaf),
        chunk("inner", TileBody::Split { direction: Direction::Vertical, ratio: 0.3 }),
        chunk("b", TileBody::Leaf),
        chunk("c", TileBody::Leaf),
    ];
    let placements = vec![
        place("c", "inner", 2),
        place("inner", "root", 1),
        place("root", "tab", 1),
        place("a", "root", 2),
        place("b", "inner", 1),
    ];
    let tree = parse("tab", &tiles, &placements).unwrap();
    assert_eq!(leaf_ids(&tree), vec!["b", "c", "a"]);
    assert_eq!(first_leaf(&tree), "b");
}
