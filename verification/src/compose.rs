//! Composition reads: field data projected into the tile tree's inputs, and
//! what each leaf displays. A leaf shows whichever process is placed
//! `relates` on it; the process is an `instance` on its program. Archetype
//! ids are parameters.

use vstd::prelude::*;
use crate::field::{Placement, PlacementType};
use crate::geometry::{self, Direction, TileBody, TileChunk};
use crate::search::{first_where, lemma_first_found, lemma_first_where};

verus! {

#[derive(Debug, Clone, PartialEq)]
pub enum ComposeError {
    /// A tile body that is neither a `{ direction, ratio }` split nor empty.
    BadTileBody { id: String },
}

/// One field of a chunk body, as it was found there.
#[derive(Debug, Clone, PartialEq)]
pub enum BodyField<T> {
    /// The body has no such field.
    Absent,
    /// The field holds a value of the expected kind.
    Value(T),
    /// The field holds something else.
    Other,
}

/// What composition reads of a chunk.
#[derive(Debug, Clone, PartialEq)]
pub struct ChunkFacts<R> {
    pub id: String,
    pub name: Option<String>,
    /// The body's `direction` (a string) and `ratio` (a number); `None` for a
    /// chunk without a body.
    pub layout: Option<(BodyField<String>, BodyField<R>)>,
    /// The body's `status`, when it is a string.
    pub status: Option<String>,
}

/// A tile body read off its fields: no body, or neither field, is a leaf; a
/// split needs `direction` to be `horizontal` or `vertical` and `ratio` to be
/// a number. `None` is a body that is neither.
pub open spec fn shape_of<R>(layout: Option<(BodyField<String>, BodyField<R>)>) -> Option<TileBody<R>> {
    match layout {
        None => Some(TileBody::Leaf),
        Some((direction, ratio)) => {
            if direction is Absent && ratio is Absent {
                Some(TileBody::Leaf)
            } else {
                let d = match direction {
                    BodyField::Value(s) => if s@ == "horizontal"@ {
                        Some(Direction::Horizontal)
                    } else if s@ == "vertical"@ {
                        Some(Direction::Vertical)
                    } else {
                        None
                    },
                    _ => None,
                };
                match (d, ratio) {
                    (Some(direction), BodyField::Value(r)) => Some(
                        TileBody::Split { direction, ratio: r },
                    ),
                    _ => None,
                }
            }
        },
    }
}

/// Reads a tile chunk's body into a split or a leaf.
pub fn body_shape<R: Copy>(id: &str, layout: &Option<(BodyField<String>, BodyField<R>)>) -> (r: Result<
    TileBody<R>,
    ComposeError,
>)
    ensures
        match r {
            Ok(b) => shape_of(*layout) == Some(b),
            Err(ComposeError::BadTileBody { id: bad }) => shape_of(*layout) is None && bad@ == id@,
        },
{
    match layout {
        None => Ok(TileBody::Leaf),
        Some((direction, ratio)) => {
            if matches!(direction, BodyField::Absent) && matches!(ratio, BodyField::Absent) {
                return Ok(TileBody::Leaf);
            }
            let d = match direction {
                BodyField::Value(s) => {
                    if crate::protocol::same_text(s.as_str(), "horizontal") {
                        Direction::Horizontal
                    } else if crate::protocol::same_text(s.as_str(), "vertical") {
                        Direction::Vertical
                    } else {
                        return Err(ComposeError::BadTileBody { id: id.to_owned() });
                    }
                },
                _ => return Err(ComposeError::BadTileBody { id: id.to_owned() }),
            };
            match ratio {
                BodyField::Value(r) => Ok(TileBody::Split { direction: d, ratio: *r }),
                _ => Err(ComposeError::BadTileBody { id: id.to_owned() }),
            }
        },
    }
}

/// `id` is an instance on `archetype`.
pub open spec fn instance_of(ps: Seq<Placement>, id: Seq<char>, archetype: Seq<char>) -> bool {
    exists|i: int|
        0 <= i < ps.len() && (#[trigger] ps[i]).chunk@ == id && ps[i].scope@ == archetype
            && ps[i].type_ == PlacementType::Instance
}

fn is_instance_of(ps: &Vec<Placement>, id: &str, archetype: &str) -> (r: bool)
    ensures
        r == instance_of(ps@, id@, archetype@),
{
    let key = id.to_owned();
    let arch = archetype.to_owned();
    let mut i: usize = 0;
    while i < ps.len()
        invariant
            i <= ps.len(),
            key@ == id@,
            arch@ == archetype@,
            forall|j: int|
                0 <= j < i ==> !((#[trigger] ps@[j]).chunk@ == id@ && ps@[j].scope@ == archetype@
                    && ps@[j].type_ == PlacementType::Instance),
        decreases ps.len() - i,
    {
        if ps[i].chunk == key && ps[i].scope == arch && ps[i].type_ == PlacementType::Instance {
            assert(ps@[i as int].chunk@ == id@);
            return true;
        }
        i = i + 1;
    }
    false
}

/// The tiles among the first `n` chunks, each with its body read, or the id
/// of the first tile whose body is neither a split nor a leaf.
pub open spec fn tiles_of<R>(cs: Seq<ChunkFacts<R>>, ps: Seq<Placement>, archetype: Seq<char>, n: int) -> Result<
    Seq<(Seq<char>, TileBody<R>)>,
    Seq<char>,
>
    decreases n,
{
    if n <= 0 {
        Ok(Seq::empty())
    } else {
        match tiles_of(cs, ps, archetype, n - 1) {
            Err(id) => Err(id),
            Ok(v) => if instance_of(ps, cs[n - 1].id@, archetype) {
                match shape_of(cs[n - 1].layout) {
                    Some(b) => Ok(v.push((cs[n - 1].id@, b))),
                    None => Err(cs[n - 1].id@),
                }
            } else {
                Ok(v)
            },
        }
    }
}

/// The tree placements among the first `n`: every instance placement of a
/// tile onto anything but the tile archetype, an absent seq read as 0.
pub open spec fn tree_placements<R>(ps: Seq<Placement>, archetype: Seq<char>, n: int) -> Seq<
    (Seq<char>, Seq<char>, i64),
>
    decreases n,
{
    if n <= 0 {
        Seq::empty()
    } else {
        let rest = tree_placements::<R>(ps, archetype, n - 1);
        let p = ps[n - 1];
        if p.type_ == PlacementType::Instance && instance_of(ps, p.chunk@, archetype) && p.scope@
            != archetype {
            rest.push(
                (
                    p.chunk@,
                    p.scope@,
                    match p.seq {
                        Some(s) => s,
                        None => 0,
                    },
                ),
            )
        } else {
            rest
        }
    }
}

pub open spec fn tile_chunk_views<R>(v: Seq<TileChunk<R>>) -> Seq<(Seq<char>, TileBody<R>)> {
    Seq::new(v.len(), |i: int| (v[i].id@, v[i].body))
}

pub open spec fn placement_views(v: Seq<geometry::Placement>) -> Seq<(Seq<char>, Seq<char>, i64)> {
    Seq::new(v.len(), |i: int| (v[i].tile@, v[i].scope@, v[i].seq))
}

/// Every tile typed `instance` on the tile archetype, as tree inputs: bodies
/// read as splits or leaves, tree placements carried through with their seq.
pub fn tile_inputs<R: Copy>(
    chunks: &Vec<ChunkFacts<R>>,
    placements: &Vec<Placement>,
    tile_archetype: &str,
) -> (r: Result<(Vec<TileChunk<R>>, Vec<geometry::Placement>), ComposeError>)
    ensures
        match r {
            Ok((tiles, tree)) => tiles_of(chunks@, placements@, tile_archetype@, chunks.len() as int)
                == Ok::<Seq<(Seq<char>, TileBody<R>)>, Seq<char>>(tile_chunk_views(tiles@))
                && placement_views(tree@) == tree_placements::<R>(
                placements@,
                tile_archetype@,
                placements.len() as int,
            ),
            Err(ComposeError::BadTileBody { id }) => tiles_of(
                chunks@,
                placements@,
                tile_archetype@,
                chunks.len() as int,
            ) == Err::<Seq<(Seq<char>, TileBody<R>)>, Seq<char>>(id@),
        },
{
    let mut tiles: Vec<TileChunk<R>> = Vec::new();
    let mut i: usize = 0;
    assert(tile_chunk_views(tiles@) =~= Seq::empty());
    while i < chunks.len()
        invariant
            i <= chunks.len(),
            tiles_of(chunks@, placements@, tile_archetype@, i as int) == Ok::<
                Seq<(Seq<char>, TileBody<R>)>,
                Seq<char>,
            >(tile_chunk_views(tiles@)),
        decreases chunks.len() - i,
    {
        let c = &chunks[i];
        if is_instance_of(placements, c.id.as_str(), tile_archetype) {
            match body_shape(c.id.as_str(), &c.layout) {
                Ok(body) => {
                    let ghost before = tiles@;
                    tiles.push(TileChunk { id: c.id.clone(), body });
                    assert(tile_chunk_views(tiles@) =~= tile_chunk_views(before).push(
                        (c.id@, body),
                    ));
                },
                Err(e) => {
                    proof {
                        lemma_tiles_err_stays(chunks@, placements@, tile_archetype@, i as int + 1, chunks.len() as int);
                    }
                    return Err(e);
                },
            }
        }
        i = i + 1;
    }
    let mut tree: Vec<geometry::Placement> = Vec::new();
    let arch = tile_archetype.to_owned();
    let mut j: usize = 0;
    assert(placement_views(tree@) =~= Seq::empty());
    while j < placements.len()
        invariant
            j <= placements.len(),
            arch@ == tile_archetype@,
            placement_views(tree@) == tree_placements::<R>(placements@, tile_archetype@, j as int),
        decreases placements.len() - j,
    {
        let p = &placements[j];
        if p.type_ == PlacementType::Instance && is_instance_of(
            placements,
            p.chunk.as_str(),
            tile_archetype,
        ) && !(p.scope == arch) {
            let seq = match p.seq {
                Some(s) => s,
                None => 0,
            };
            let ghost before = tree@;
            tree.push(geometry::Placement { tile: p.chunk.clone(), scope: p.scope.clone(), seq });
            assert(placement_views(tree@) =~= placement_views(before).push((p.chunk@, p.scope@, seq)));
        }
        j = j + 1;
    }
    Ok((tiles, tree))
}

proof fn lemma_tiles_err_stays<R>(
    cs: Seq<ChunkFacts<R>>,
    ps: Seq<Placement>,
    archetype: Seq<char>,
    k: int,
    n: int,
)
    requires
        0 < k <= n,
        tiles_of(cs, ps, archetype, k) is Err,
    ensures
        tiles_of(cs, ps, archetype, n) == tiles_of(cs, ps, archetype, k),
    decreases n - k,
{
    if n > k {
        lemma_tiles_err_stays(cs, ps, archetype, k, n - 1);
    }
}

#[derive(Debug, Clone, PartialEq)]
pub struct ProcessInfo {
    pub process: String,
    pub program: String,
    pub status: Option<String>,
}

/// Placement `i` is the leaf's `relates` onto a process.
pub open spec fn displays(ps: Seq<Placement>, leaf: Seq<char>, process_archetype: Seq<char>) -> spec_fn(int) -> bool {
    |i: int|
        ps[i].chunk@ == leaf && ps[i].type_ == PlacementType::Relates && instance_of(
            ps,
            ps[i].scope@,
            process_archetype,
        )
}

/// Placement `i` is the process's `instance` on a program.
pub open spec fn runs(ps: Seq<Placement>, process: Seq<char>, program_archetype: Seq<char>) -> spec_fn(int) -> bool {
    |i: int|
        ps[i].chunk@ == process && ps[i].type_ == PlacementType::Instance && instance_of(
            ps,
            ps[i].scope@,
            program_archetype,
        )
}

/// Chunk `k` has this id.
pub open spec fn named<R>(cs: Seq<ChunkFacts<R>>, id: Seq<char>) -> spec_fn(int) -> bool {
    |k: int| cs[k].id@ == id
}

/// What a leaf displays: the process its first `relates` placement names, the
/// program that process's first `instance` placement names (by the program
/// chunk's name when it has one), and the process chunk's status.
pub open spec fn leaf_display<R>(
    cs: Seq<ChunkFacts<R>>,
    ps: Seq<Placement>,
    leaf: Seq<char>,
    process_archetype: Seq<char>,
    program_archetype: Seq<char>,
) -> Option<(Seq<char>, Seq<char>, Option<Seq<char>>)> {
    match first_where(ps.len() as int, displays(ps, leaf, process_archetype)) {
        None => None,
        Some(i) => {
            let process = ps[i].scope@;
            match first_where(ps.len() as int, runs(ps, process, program_archetype)) {
                None => None,
                Some(j) => {
                    let program_id = ps[j].scope@;
                    let program = match first_where(cs.len() as int, named(cs, program_id)) {
                        Some(k) => match cs[k].name {
                            Some(name) => name@,
                            None => program_id,
                        },
                        None => program_id,
                    };
                    let status = match first_where(cs.len() as int, named(cs, process)) {
                        Some(k) => match cs[k].status {
                            Some(s) => Some(s@),
                            None => None,
                        },
                        None => None,
                    };
                    Some((process, program, status))
                },
            }
        },
    }
}

fn first_displaying(ps: &Vec<Placement>, leaf: &str, process_archetype: &str) -> (r: Option<usize>)
    ensures
        match r {
            Some(i) => first_where(ps.len() as int, displays(ps@, leaf@, process_archetype@))
                == Some(i as int),
            None => first_where(ps.len() as int, displays(ps@, leaf@, process_archetype@)) is None,
        },
{
    let key = leaf.to_owned();
    let mut i: usize = 0;
    while i < ps.len()
        invariant
            i <= ps.len(),
            key@ == leaf@,
            first_where(i as int, displays(ps@, leaf@, process_archetype@)) is None,
        decreases ps.len() - i,
    {
        if ps[i].chunk == key && ps[i].type_ == PlacementType::Relates && is_instance_of(
            ps,
            ps[i].scope.as_str(),
            process_archetype,
        ) {
            proof {
                lemma_first_found(displays(ps@, leaf@, process_archetype@), i as int, ps.len() as int);
            }
            return Some(i);
        }
        i = i + 1;
    }
    None
}

fn first_running(ps: &Vec<Placement>, process: &str, program_archetype: &str) -> (r: Option<usize>)
    ensures
        match r {
            Some(i) => first_where(ps.len() as int, runs(ps@, process@, program_archetype@))
                == Some(i as int),
            None => first_where(ps.len() as int, runs(ps@, process@, program_archetype@)) is None,
        },
{
    let key = process.to_owned();
    let mut i: usize = 0;
    while i < ps.len()
        invariant
            i <= ps.len(),
            key@ == process@,
            first_where(i as int, runs(ps@, process@, program_archetype@)) is None,
        decreases ps.len() - i,
    {
        if ps[i].chunk == key && ps[i].type_ == PlacementType::Instance && is_instance_of(
            ps,
            ps[i].scope.as_str(),
            program_archetype,
        ) {
            proof {
                lemma_first_found(runs(ps@, process@, program_archetype@), i as int, ps.len() as int);
            }
            return Some(i);
        }
        i = i + 1;
    }
    None
}

fn first_named<R>(cs: &Vec<ChunkFacts<R>>, id: &str) -> (r: Option<usize>)
    ensures
        match r {
            Some(k) => first_where(cs.len() as int, named(cs@, id@)) == Some(k as int),
            None => first_where(cs.len() as int, named(cs@, id@)) is None,
        },
{
    let key = id.to_owned();
    let mut i: usize = 0;
    while i < cs.len()
        invariant
            i <= cs.len(),
            key@ == id@,
            first_where(i as int, named(cs@, id@)) is None,
        decreases cs.len() - i,
    {
        if cs[i].id == key {
            proof {
                lemma_first_found(named(cs@, id@), i as int, cs.len() as int);
            }
            return Some(i);
        }
        i = i + 1;
    }
    None
}

pub open spec fn info_view(r: Option<ProcessInfo>) -> Option<(Seq<char>, Seq<char>, Option<Seq<char>>)> {
    match r {
        None => None,
        Some(info) => Some(
            (
                info.process@,
                info.program@,
                match info.status {
                    Some(s) => Some(s@),
                    None => None,
                },
            ),
        ),
    }
}

/// The process a leaf displays, its program's display name, and its status.
pub fn leaf_process<R>(
    chunks: &Vec<ChunkFacts<R>>,
    placements: &Vec<Placement>,
    leaf: &str,
    process_archetype: &str,
    program_archetype: &str,
) -> (r: Option<ProcessInfo>)
    ensures
        info_view(r) == leaf_display(
            chunks@,
            placements@,
            leaf@,
            process_archetype@,
            program_archetype@,
        ),
{
    let i = match first_displaying(placements, leaf, process_archetype) {
        Some(i) => i,
        None => return None,
    };
    proof {
        lemma_first_where(displays(placements@, leaf@, process_archetype@), placements.len() as int);
    }
    let process = placements[i].scope.clone();
    let j = match first_running(placements, process.as_str(), program_archetype) {
        Some(j) => j,
        None => return None,
    };
    proof {
        lemma_first_where(runs(placements@, process@, program_archetype@), placements.len() as int);
    }
    let program_id = placements[j].scope.clone();
    let program = match first_named(chunks, program_id.as_str()) {
        Some(k) => {
            proof {
                lemma_first_where(named(chunks@, program_id@), chunks.len() as int);
            }
            match &chunks[k].name {
                Some(name) => name.clone(),
                None => program_id,
            }
        },
        None => program_id,
    };
    let status = match first_named(chunks, process.as_str()) {
        Some(k) => {
            proof {
                lemma_first_where(named(chunks@, process@), chunks.len() as int);
            }
            match &chunks[k].status {
                Some(s) => Some(s.clone()),
                None => None,
            }
        },
        None => None,
    };
    Some(ProcessInfo { process, program, status })
}

} // verus!
