//! A tab's tile tree, read out of one scope read over the tile archetype:
//! every tile with its placements. The tree's edges are a tile's instance
//! placements onto the tab or onto another tile (the typing placement onto
//! the archetype is no edge); what a leaf displays is the process it relates
//! to, not counting the mount provenance rows the engine adds to every read.
//! The last such relation of a tile is the one that holds.

use vstd::prelude::*;
use crate::field::PlacementType;
use crate::geometry::Placement;
use crate::protocol::same_text;
use crate::search::{first_where, lemma_first_found};
use crate::text::{chars_of, starts_with, starts_with_exec};

verus! {

/// The prefix of the relations the engine synthesizes for mount provenance.
pub const MOUNT_PROVENANCE: &'static str = "engine/mount";

/// A placement of a tile as the read gives it.
pub struct PlacementRead {
    pub scope: String,
    pub type_: PlacementType,
    pub seq: Option<i64>,
}

/// A tile as the read gives it: its id and its placements.
pub struct TileRead {
    pub id: String,
    pub placements: Vec<PlacementRead>,
}

/// Some tile of the read has this id.
pub open spec fn is_tile(tiles: Seq<TileRead>, id: Seq<char>) -> bool {
    exists|k: int| 0 <= k < tiles.len() && (#[trigger] tiles[k]).id@ == id
}

/// Placement `p` of a tile is a tree edge: an instance onto the tab or onto
/// a tile.
pub open spec fn is_edge(tab: Seq<char>, tiles: Seq<TileRead>, p: PlacementRead) -> bool {
    p.type_ == PlacementType::Instance && (p.scope@ == tab || is_tile(tiles, p.scope@))
}

/// The edge a placement of `tile` makes, as (tile, scope, seq), an absent
/// seq read as 0.
pub open spec fn edge_view(tile: Seq<char>, p: PlacementRead) -> (Seq<char>, Seq<char>, i64) {
    (
        tile,
        p.scope@,
        match p.seq {
            Some(s) => s,
            None => 0,
        },
    )
}

/// The edges among the first `m` placements of `tile`, in order.
pub open spec fn tile_edges(tab: Seq<char>, tiles: Seq<TileRead>, tile: TileRead, m: int) -> Seq<(Seq<char>, Seq<char>, i64)>
    decreases m,
{
    if m <= 0 {
        Seq::empty()
    } else {
        let rest = tile_edges(tab, tiles, tile, m - 1);
        let p = tile.placements@[m - 1];
        if is_edge(tab, tiles, p) {
            rest.push(edge_view(tile.id@, p))
        } else {
            rest
        }
    }
}

/// The edges of the first `n` tiles, tile by tile.
pub open spec fn edges_of(tab: Seq<char>, tiles: Seq<TileRead>, n: int) -> Seq<(Seq<char>, Seq<char>, i64)>
    decreases n,
{
    if n <= 0 {
        Seq::empty()
    } else {
        edges_of(tab, tiles, n - 1) + tile_edges(tab, tiles, tiles[n - 1], tiles[n - 1].placements@.len() as int)
    }
}

/// Edges as plain values.
pub open spec fn edge_views(v: Seq<Placement>) -> Seq<(Seq<char>, Seq<char>, i64)> {
    Seq::new(v.len(), |i: int| (v[i].tile@, v[i].scope@, v[i].seq))
}

/// Placement `p` names a displayed process: a relation that is no mount
/// provenance row.
pub open spec fn is_display(p: PlacementRead) -> bool {
    p.type_ == PlacementType::Relates && !starts_with(p.scope@, MOUNT_PROVENANCE@)
}

/// The last displayed process among the first `m` placements of a tile.
pub open spec fn last_display(tile: TileRead, m: int) -> Option<Seq<char>>
    decreases m,
{
    if m <= 0 {
        None
    } else if is_display(tile.placements@[m - 1]) {
        Some(tile.placements@[m - 1].scope@)
    } else {
        last_display(tile, m - 1)
    }
}

/// The process the tile `id` displays, over the first `n` tiles: the last
/// relation that holds, reading tile by tile.
pub open spec fn display_of(tiles: Seq<TileRead>, id: Seq<char>, n: int) -> Option<Seq<char>>
    decreases n,
{
    if n <= 0 {
        None
    } else {
        let here = if tiles[n - 1].id@ == id {
            last_display(tiles[n - 1], tiles[n - 1].placements@.len() as int)
        } else {
            None
        };
        match here {
            Some(p) => Some(p),
            None => display_of(tiles, id, n - 1),
        }
    }
}

fn tile_named(tiles: &Vec<TileRead>, id: &str) -> (r: bool)
    ensures
        r == is_tile(tiles@, id@),
{
    let mut k: usize = 0;
    while k < tiles.len()
        invariant
            k <= tiles@.len(),
            forall|j: int| 0 <= j < k ==> (#[trigger] tiles@[j]).id@ != id@,
        decreases tiles.len() - k,
    {
        if same_text(tiles[k].id.as_str(), id) {
            return true;
        }
        k = k + 1;
    }
    false
}

/// The tree's edges: every tile's instance placements onto the tab or onto
/// a tile, tile by tile, each tile's in the order read.
pub fn tree_edges(tab: &str, tiles: &Vec<TileRead>) -> (edges: Vec<Placement>)
    ensures
        edge_views(edges@) == edges_of(tab@, tiles@, tiles@.len() as int),
{
    let mut edges: Vec<Placement> = Vec::new();
    let mut n: usize = 0;
    assert(edge_views(edges@) =~= Seq::empty());
    while n < tiles.len()
        invariant
            n <= tiles@.len(),
            edge_views(edges@) == edges_of(tab@, tiles@, n as int),
        decreases tiles.len() - n,
    {
        let tile = &tiles[n];
        let ghost start = edge_views(edges@);
        let mut m: usize = 0;
        assert(start + tile_edges(tab@, tiles@, *tile, 0) =~= start);
        while m < tile.placements.len()
            invariant
                n < tiles@.len(),
                *tile == tiles@[n as int],
                m <= tile.placements@.len(),
                edge_views(edges@) == start + tile_edges(tab@, tiles@, *tile, m as int),
            decreases tile.placements.len() - m,
        {
            let p = &tile.placements[m];
            let ghost before = edge_views(edges@);
            let onto = match p.type_ {
                PlacementType::Instance => same_text(p.scope.as_str(), tab) || tile_named(tiles, p.scope.as_str()),
                PlacementType::Relates => false,
            };
            if onto {
                let seq = match p.seq {
                    Some(s) => s,
                    None => 0,
                };
                edges.push(Placement { tile: tile.id.clone(), scope: p.scope.clone(), seq });
                assert(edge_views(edges@) =~= before.push(edge_view(tile.id@, *p)));
            }
            assert(start + tile_edges(tab@, tiles@, *tile, m + 1) =~= edge_views(edges@));
            m = m + 1;
        }
        n = n + 1;
    }
    edges
}

/// The process the tile `id` displays, if any.
pub fn displayed_process(tiles: &Vec<TileRead>, id: &str) -> (process: Option<String>)
    ensures
        match process {
            Some(p) => display_of(tiles@, id@, tiles@.len() as int) == Some(p@),
            None => display_of(tiles@, id@, tiles@.len() as int) is None,
        },
{
    let prefix = chars_of(MOUNT_PROVENANCE);
    let mut n: usize = tiles.len();
    while n > 0
        invariant
            n <= tiles@.len(),
            prefix@ == MOUNT_PROVENANCE@,
            forall|k: int| n <= k < tiles@.len() ==> !(tiles@[k].id@ == id@ && last_display(tiles@[k], tiles@[k].placements@.len() as int) is Some),
            display_of(tiles@, id@, tiles@.len() as int) == display_of(tiles@, id@, n as int),
        decreases n,
    {
        let tile = &tiles[n - 1];
        if same_text(tile.id.as_str(), id) {
            let mut m: usize = tile.placements.len();
            while m > 0
                invariant
                    0 < n <= tiles@.len(),
                    *tile == tiles@[n - 1],
                    tile.id@ == id@,
                    display_of(tiles@, id@, tiles@.len() as int) == display_of(tiles@, id@, n as int),
                    m <= tile.placements@.len(),
                    prefix@ == MOUNT_PROVENANCE@,
                    last_display(*tile, tile.placements@.len() as int) == last_display(*tile, m as int),
                decreases m,
            {
                let p = &tile.placements[m - 1];
                let shown = match p.type_ {
                    PlacementType::Relates => !starts_with_exec(&chars_of(p.scope.as_str()), &prefix),
                    PlacementType::Instance => false,
                };
                if shown {
                    assert(is_display(*p));
                    assert(last_display(*tile, m as int) == Some(p.scope@));
                    return Some(p.scope.clone());
                }
                m = m - 1;
            }
        }
        n = n - 1;
    }
    None
}

/// One instance parent of a leaf's process, as read: its id and name,
/// whether its body declares an executable and a runtime, and the executable
/// when it is a string.
pub struct ParentRead {
    pub id: String,
    pub name: Option<String>,
    pub has_executable: bool,
    pub has_runtime: bool,
    pub executable: Option<String>,
}

/// A parent is the program when its body declares both an executable and a
/// runtime.
pub open spec fn is_program(p: ParentRead) -> bool {
    p.has_executable && p.has_runtime
}

/// Parent `k` was read and is a program.
pub open spec fn program_at(parents: Seq<Option<ParentRead>>) -> spec_fn(int) -> bool {
    |k: int| parents[k] matches Some(p) && is_program(p)
}

/// What a leaf shows: its tile, the process it displays, that process's
/// program (id, name and executable) and the process's status. What could
/// not be read is left out; the rectangle still renders.
pub struct LeafView {
    pub tile: String,
    pub process: Option<String>,
    pub program: Option<String>,
    pub program_name: Option<String>,
    pub executable: Option<String>,
    pub status: Option<String>,
}

/// A leaf resolved from what was read of it: its process's status and, in
/// the order of the process's instance placements, each parent (`None` where
/// it could not be read). The program is the first parent that is one.
pub fn resolve_leaf(
    tile: String,
    process: Option<String>,
    status: Option<String>,
    parents: &Vec<Option<ParentRead>>,
) -> (v: LeafView)
    ensures
        v.tile == tile,
        v.process == process,
        v.status == status,
        match first_where(parents@.len() as int, program_at(parents@)) {
            None => v.program is None && v.program_name is None && v.executable is None,
            Some(k) => parents@[k] matches Some(p) && v.program == Some(p.id) && v.program_name == p.name
                && v.executable == p.executable,
        },
{
    let mut k: usize = 0;
    while k < parents.len()
        invariant
            k <= parents@.len(),
            first_where(k as int, program_at(parents@)) is None,
        decreases parents.len() - k,
    {
        match &parents[k] {
            Some(p) => {
                if p.has_executable && p.has_runtime {
                    proof {
                        lemma_first_found(program_at(parents@), k as int, parents@.len() as int);
                    }
                    return LeafView {
                        tile,
                        process,
                        program: Some(p.id.clone()),
                        program_name: p.name.clone(),
                        executable: p.executable.clone(),
                        status,
                    };
                }
            },
            None => {},
        }
        k = k + 1;
    }
    LeafView { tile, process, program: None, program_name: None, executable: None, status }
}

} // verus!
