//! Placements as the field holds them: a chunk placed on a scope, as an
//! `instance` or a `relates`, with an optional `seq` ordering it among its
//! siblings.

use vstd::prelude::*;

verus! {

#[derive(Debug, Clone, Copy, PartialEq, Eq, Structural)]
pub enum PlacementType {
    Instance,
    Relates,
}

#[derive(Debug, Clone, PartialEq)]
pub struct Placement {
    pub chunk: String,
    pub scope: String,
    pub type_: PlacementType,
    pub seq: Option<i64>,
}

/// `chunk` is an instance on `scope`, unordered.
pub fn instance(chunk: &str, scope: &str) -> (p: Placement)
    ensures
        p.chunk@ == chunk@,
        p.scope@ == scope@,
        p.type_ == PlacementType::Instance,
        p.seq is None,
{
    Placement {
        chunk: chunk.to_owned(),
        scope: scope.to_owned(),
        type_: PlacementType::Instance,
        seq: None,
    }
}

/// `chunk` is an instance on `scope`, at position `seq` among its siblings.
pub fn instance_seq(chunk: &str, scope: &str, seq: i64) -> (p: Placement)
    ensures
        p.chunk@ == chunk@,
        p.scope@ == scope@,
        p.type_ == PlacementType::Instance,
        p.seq == Some(seq),
{
    Placement {
        chunk: chunk.to_owned(),
        scope: scope.to_owned(),
        type_: PlacementType::Instance,
        seq: Some(seq),
    }
}

/// `chunk` relates to `scope`.
pub fn relates(chunk: &str, scope: &str) -> (p: Placement)
    ensures
        p.chunk@ == chunk@,
        p.scope@ == scope@,
        p.type_ == PlacementType::Relates,
        p.seq is None,
{
    Placement {
        chunk: chunk.to_owned(),
        scope: scope.to_owned(),
        type_: PlacementType::Relates,
        seq: None,
    }
}

// Archetype ids.
pub const HOST_SESSION: &'static str = "host/session";

pub const HOST_TAB: &'static str = "host/tab";

pub const HOST_TILE: &'static str = "host/tile";

pub const ENGINE_PROGRAM: &'static str = "engine/program";

pub const ENGINE_PROCESS: &'static str = "engine/process";

// The demo field's entities.
pub const DEMO_SESSION: &'static str = "demo-session";

pub const DEMO_TAB: &'static str = "tab-main";


/// A placement as plain values: chunk, scope, type and seq.
pub open spec fn placement_view(p: Placement) -> (Seq<char>, Seq<char>, PlacementType, Option<i64>) {
    (p.chunk@, p.scope@, p.type_, p.seq)
}

/// The demo field's placements: the session and tab, three programs on the
/// program archetype, a running process of each (on the process archetype,
/// on its program and on the session), five tiles typed as tiles, the tile
/// tree (the root on the tab, a reader beside a split of sidebar over
/// inspector, seq choosing the side), and each leaf relating to the process
/// it displays.
pub open spec fn demo_placements_spec() -> Seq<(Seq<char>, Seq<char>, PlacementType, Option<i64>)> {
    seq![
        (DEMO_SESSION@, HOST_SESSION@, PlacementType::Instance, None),
        (DEMO_TAB@, HOST_TAB@, PlacementType::Instance, None),
        (DEMO_TAB@, DEMO_SESSION@, PlacementType::Instance, None),
        ("prog-read-tile"@, ENGINE_PROGRAM@, PlacementType::Instance, None),
        ("prog-sidebar"@, ENGINE_PROGRAM@, PlacementType::Instance, None),
        ("prog-inspector"@, ENGINE_PROGRAM@, PlacementType::Instance, None),
        ("proc-read-tile-1"@, ENGINE_PROCESS@, PlacementType::Instance, None),
        ("proc-read-tile-1"@, "prog-read-tile"@, PlacementType::Instance, None),
        ("proc-read-tile-1"@, DEMO_SESSION@, PlacementType::Instance, None),
        ("proc-sidebar-1"@, ENGINE_PROCESS@, PlacementType::Instance, None),
        ("proc-sidebar-1"@, "prog-sidebar"@, PlacementType::Instance, None),
        ("proc-sidebar-1"@, DEMO_SESSION@, PlacementType::Instance, None),
        ("proc-inspector-1"@, ENGINE_PROCESS@, PlacementType::Instance, None),
        ("proc-inspector-1"@, "prog-inspector"@, PlacementType::Instance, None),
        ("proc-inspector-1"@, DEMO_SESSION@, PlacementType::Instance, None),
        ("tile-root"@, HOST_TILE@, PlacementType::Instance, None),
        ("tile-reader"@, HOST_TILE@, PlacementType::Instance, None),
        ("tile-right"@, HOST_TILE@, PlacementType::Instance, None),
        ("tile-side"@, HOST_TILE@, PlacementType::Instance, None),
        ("tile-inspect"@, HOST_TILE@, PlacementType::Instance, None),
        ("tile-root"@, DEMO_TAB@, PlacementType::Instance, Some(1i64)),
        ("tile-reader"@, "tile-root"@, PlacementType::Instance, Some(1i64)),
        ("tile-right"@, "tile-root"@, PlacementType::Instance, Some(2i64)),
        ("tile-side"@, "tile-right"@, PlacementType::Instance, Some(1i64)),
        ("tile-inspect"@, "tile-right"@, PlacementType::Instance, Some(2i64)),
        ("tile-reader"@, "proc-read-tile-1"@, PlacementType::Relates, None),
        ("tile-side"@, "proc-sidebar-1"@, PlacementType::Relates, None),
        ("tile-inspect"@, "proc-inspector-1"@, PlacementType::Relates, None),
    ]
}

/// The demo field's placements.
pub fn demo_placements() -> (ps: Vec<Placement>)
    ensures
        Seq::new(ps@.len(), |i: int| placement_view(ps@[i])) == demo_placements_spec(),
{
    let mut ps: Vec<Placement> = Vec::new();
    ps.push(instance(DEMO_SESSION, HOST_SESSION));
    ps.push(instance(DEMO_TAB, HOST_TAB));
    ps.push(instance(DEMO_TAB, DEMO_SESSION));
    ps.push(instance("prog-read-tile", ENGINE_PROGRAM));
    ps.push(instance("prog-sidebar", ENGINE_PROGRAM));
    ps.push(instance("prog-inspector", ENGINE_PROGRAM));
    ps.push(instance("proc-read-tile-1", ENGINE_PROCESS));
    ps.push(instance("proc-read-tile-1", "prog-read-tile"));
    ps.push(instance("proc-read-tile-1", DEMO_SESSION));
    ps.push(instance("proc-sidebar-1", ENGINE_PROCESS));
    ps.push(instance("proc-sidebar-1", "prog-sidebar"));
    ps.push(instance("proc-sidebar-1", DEMO_SESSION));
    ps.push(instance("proc-inspector-1", ENGINE_PROCESS));
    ps.push(instance("proc-inspector-1", "prog-inspector"));
    ps.push(instance("proc-inspector-1", DEMO_SESSION));
    ps.push(instance("tile-root", HOST_TILE));
    ps.push(instance("tile-reader", HOST_TILE));
    ps.push(instance("tile-right", HOST_TILE));
    ps.push(instance("tile-side", HOST_TILE));
    ps.push(instance("tile-inspect", HOST_TILE));
    ps.push(instance_seq("tile-root", DEMO_TAB, 1));
    ps.push(instance_seq("tile-reader", "tile-root", 1));
    ps.push(instance_seq("tile-right", "tile-root", 2));
    ps.push(instance_seq("tile-side", "tile-right", 1));
    ps.push(instance_seq("tile-inspect", "tile-right", 2));
    ps.push(relates("tile-reader", "proc-read-tile-1"));
    ps.push(relates("tile-side", "proc-sidebar-1"));
    ps.push(relates("tile-inspect", "proc-inspector-1"));
    assert(Seq::new(ps@.len(), |i: int| placement_view(ps@[i])) =~= demo_placements_spec());
    ps
}

} // verus!
