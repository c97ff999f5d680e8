//! The host project's bootstrap: the composition archetypes (session, tab,
//! tile, overlay, recipe), the type definitions placed so that the names an
//! archetype accepts resolve within its own scope, and the first-party
//! surface programs, each instance on the host and on the engine's program
//! archetype. Bodies are written as JSON text.

use vstd::prelude::*;
use vstd::string::*;
use crate::field::{instance, relates, Placement};
use crate::json::{json_quoted, json_string};
use crate::order::views;
use crate::protocol::same_text;
use crate::stub::string_text;
use crate::text::{push_str, string_of};

verus! {

/// What an archetype's spec says: whether it propagates, whether its members
/// are ordered, the names it accepts and the body fields it requires.
pub struct SpecDecl {
    pub propagate: bool,
    pub ordered: bool,
    pub accepts: Vec<String>,
    pub required: Vec<String>,
}

/// One chunk of a declaration: its id, name, spec and body (JSON text).
/// A chunk with no body is the engine's anchor row for `engine/process`,
/// whose marker body the engine defines.
pub struct ChunkDecl {
    pub id: String,
    pub name: Option<String>,
    pub spec: Option<SpecDecl>,
    pub body: Option<String>,
}

/// A bootstrap declaration: its chunks and its placements.
pub struct Bootstrap {
    pub chunks: Vec<ChunkDecl>,
    pub placements: Vec<Placement>,
}

/// A spec as plain values.
pub open spec fn spec_view(s: SpecDecl) -> (bool, bool, Seq<Seq<char>>, Seq<Seq<char>>) {
    (s.propagate, s.ordered, views(s.accepts@), views(s.required@))
}

/// A chunk as plain values.
pub open spec fn chunk_view(c: ChunkDecl) -> (Seq<char>, Option<Seq<char>>, Option<(bool, bool, Seq<Seq<char>>, Seq<Seq<char>>)>, Option<Seq<char>>) {
    (
        c.id@,
        string_text(c.name),
        match c.spec {
            Some(s) => Some(spec_view(s)),
            None => None,
        },
        string_text(c.body),
    )
}

/// A body holding only a text.
pub open spec fn text_body(text: Seq<char>) -> Seq<char> {
    "{\"text\":"@ + json_quoted(text) + "}"@
}

/// A first-party surface program's body: its entry under `programs/`, the
/// webview runtime, an overlay surface where it is one, and a timeout of one
/// day (86 400 000 ms): surfaces are long-lived, and the engine's defaults
/// are for tools and agents.
pub open spec fn surface_body(name: Seq<char>, overlay: bool) -> Seq<char> {
    "{\"executable\":"@ + json_quoted("programs/"@ + name + "/src/index.tsx"@) + ",\"runtime\":\"webview\","@
        + (if overlay { "\"surface\":\"overlay\","@ } else { Seq::empty() })
        + "\"text\":\"First-party demo surface program.\",\"timeout_ms\":86400000}"@
}

/// The chunk of a first-party surface program.
pub open spec fn surface_chunk(name: Seq<char>, overlay: bool) -> (Seq<char>, Option<Seq<char>>, Option<(bool, bool, Seq<Seq<char>>, Seq<Seq<char>>)>, Option<Seq<char>>) {
    ("host/"@ + name, Some(name), None, Some(surface_body(name, overlay)))
}

/// The host bootstrap's chunks.
pub open spec fn host_chunks() -> Seq<(Seq<char>, Option<Seq<char>>, Option<(bool, bool, Seq<Seq<char>>, Seq<Seq<char>>)>, Option<Seq<char>>)> {
    seq![
        ("host"@, Some("host"@), None, Some(text_body("Root scope of the host project."@))),
        ("host/session"@, Some("session"@), Some((true, false, seq!["tab"@, "process"@], Seq::empty())),
            Some(text_body("The outer container of the interface state: tabs and processes."@))),
        ("host/tab"@, Some("tab"@), Some((true, false, seq!["tile"@], Seq::empty())),
            Some(text_body("The root of a tile tree. Workspaces are tabs."@))),
        ("host/tile"@, Some("tile"@), Some((true, true, Seq::empty(), Seq::empty())),
            Some(text_body("A node in the split tree. Splits carry { direction, ratio }; leaves are empty and relate a process."@))),
        ("host/overlay"@, Some("overlay"@), None,
            Some(text_body("A program rendered above its anchor rather than inside the tile composition."@))),
        ("host/recipe"@, Some("recipe"@), Some((true, false, seq!["tile"@], Seq::empty())),
            Some(text_body("A preserved tile subtree that can be spawned into a new root."@))),
        ("engine/process"@, None, None, None),
        surface_chunk("read-tile"@, false),
        surface_chunk("sidebar"@, false),
        surface_chunk("inspector"@, false),
        surface_chunk("context-menu"@, true),
    ]
}

/// A placement as plain values.
pub open spec fn placement_of(p: Placement) -> (Seq<char>, Seq<char>, bool) {
    (p.chunk@, p.scope@, p.type_ == crate::field::PlacementType::Instance)
}

/// The host bootstrap's placements, each as chunk, scope and whether it is
/// an instance (else it relates): the archetypes on the host; the type
/// definitions related so accepted names resolve; each surface program on
/// the host and on the engine's program archetype.
pub open spec fn host_placements() -> Seq<(Seq<char>, Seq<char>, bool)> {
    seq![
        ("host/session"@, "host"@, true),
        ("host/tab"@, "host"@, true),
        ("host/tile"@, "host"@, true),
        ("host/overlay"@, "host"@, true),
        ("host/recipe"@, "host"@, true),
        ("host/tab"@, "host/session"@, false),
        ("engine/process"@, "host/session"@, false),
        ("host/tile"@, "host/tab"@, false),
        ("host/tile"@, "host/recipe"@, false),
        ("host/read-tile"@, "host"@, true),
        ("host/read-tile"@, "engine/program"@, true),
        ("host/sidebar"@, "host"@, true),
        ("host/sidebar"@, "engine/program"@, true),
        ("host/inspector"@, "host"@, true),
        ("host/inspector"@, "engine/program"@, true),
        ("host/context-menu"@, "host"@, true),
        ("host/context-menu"@, "engine/program"@, true),
    ]
}

/// The name that the chunks declare for `id`, looking from the `n`-th
/// chunk backwards and passing over rows that declare no name.
pub open spec fn declared_name(
    chunks: Seq<(Seq<char>, Option<Seq<char>>, Option<(bool, bool, Seq<Seq<char>>, Seq<Seq<char>>)>, Option<Seq<char>>)>,
    id: Seq<char>,
    n: int,
) -> Option<Seq<char>>
    decreases n,
{
    if n <= 0 {
        None
    } else if chunks[n - 1].1 is Some && chunks[n - 1].0 == id {
        chunks[n - 1].1
    } else {
        declared_name(chunks, id, n - 1)
    }
}

/// The names, in placement order, of the chunks that relate (not instance)
/// onto `scope` among the first `n` placements, each name as `chunks`
/// declare it.
pub open spec fn related_names(
    placements: Seq<(Seq<char>, Seq<char>, bool)>,
    scope: Seq<char>,
    chunks: Seq<(Seq<char>, Option<Seq<char>>, Option<(bool, bool, Seq<Seq<char>>, Seq<Seq<char>>)>, Option<Seq<char>>)>,
    n: int,
) -> Seq<Seq<char>>
    decreases n,
{
    if n <= 0 {
        Seq::empty()
    } else {
        let rest = related_names(placements, scope, chunks, n - 1);
        if !placements[n - 1].2 && placements[n - 1].1 == scope {
            match declared_name(chunks, placements[n - 1].0, chunks.len() as int) {
                Some(name) => rest.push(name),
                None => rest,
            }
        } else {
            rest
        }
    }
}

/// In the host bootstrap every archetype accepts exactly the names of the
/// chunks related onto it, in order, so that each accepted name resolves in
/// the archetype's own scope: the session accepts the tab and the engine's
/// process, the tab and the recipe accept the tile, and the tile accepts
/// nothing. Names come from the host's chunks and then the engine's (the
/// host only anchors `engine/process`, which the engine names).
pub proof fn host_archetypes_accept_what_relates_onto_them()
    ensures
        forall|k: int|
            #![trigger host_chunks()[k]]
            0 <= k < host_chunks().len() ==> (host_chunks()[k].2 matches Some(spec) ==> spec.2
                == related_names(
                host_placements(),
                host_chunks()[k].0,
                host_chunks() + engine_chunks(),
                host_placements().len() as int,
            )),
{
    reveal_strlit("host");
    reveal_strlit("host/session");
    reveal_strlit("host/tab");
    reveal_strlit("host/tile");
    reveal_strlit("host/overlay");
    reveal_strlit("host/recipe");
    reveal_strlit("engine/process");
    reveal_strlit("engine/program");
    reveal_strlit("host/");
    reveal_strlit("read-tile");
    reveal_strlit("sidebar");
    reveal_strlit("inspector");
    reveal_strlit("context-menu");
    reveal_strlit("engine");
    reveal_strlit("engine/read-boundary");
    reveal_strlit("engine/write-boundary");
    reveal_with_fuel(related_names, 18);
    reveal_with_fuel(declared_name, 17);
    let hc = host_chunks();
    let hp = host_placements();
    let all = hc + engine_chunks();
    assert(all.len() == 16);
    assert(all[0].0 == "host"@ && all[0].0.len() == 4);
    assert(all[1].0 == "host/session"@ && all[1].0.len() == 12);
    assert(all[2].0 == "host/tab"@ && all[2].0.len() == 8);
    assert(all[3].0 == "host/tile"@ && all[3].0.len() == 9);
    assert(all[4].0 == "host/overlay"@ && all[4].0.len() == 12);
    assert(all[5].0 == "host/recipe"@ && all[5].0.len() == 11);
    assert(all[6].0 == "engine/process"@ && all[6].0.len() == 14);
    assert(all[7].0 == "host/"@ + "read-tile"@ && all[7].0.len() == 14);
    assert(all[8].0 == "host/"@ + "sidebar"@ && all[8].0.len() == 12);
    assert(all[9].0 == "host/"@ + "inspector"@ && all[9].0.len() == 14);
    assert(all[10].0 == "host/"@ + "context-menu"@ && all[10].0.len() == 17);
    assert(all[11].0 == "engine"@ && all[11].0.len() == 6);
    assert(all[12].0 == "engine/program"@ && all[12].0.len() == 14);
    assert(all[13].0 == "engine/process"@ && all[13].0.len() == 14);
    assert(all[14].0 == "engine/read-boundary"@ && all[14].0.len() == 20);
    assert(all[15].0 == "engine/write-boundary"@ && all[15].0.len() == 21);
    assert(all[6].1 is None);
    assert(declared_name(all, "engine/process"@, 14) == Some("process"@));
    assert(declared_name(all, "host/tab"@, 3) == Some("tab"@));
    assert(declared_name(all, "host/tile"@, 4) == Some("tile"@));
    assert(related_names(hp, "host/session"@, all, 17) =~= seq!["tab"@, "process"@]);
    assert(related_names(hp, "host/tab"@, all, 17) =~= seq!["tile"@]);
    assert(related_names(hp, "host/tile"@, all, 17) =~= Seq::<Seq<char>>::empty());
    assert(related_names(hp, "host/recipe"@, all, 17) =~= seq!["tile"@]);
}

fn strings(a: &str, b: Option<&str>) -> (v: Vec<String>)
    ensures
        views(v@) == (match b {
            Some(b) => seq![a@, b@],
            None => seq![a@],
        }),
{
    let mut v: Vec<String> = Vec::new();
    v.push(a.to_owned());
    match b {
        Some(b) => {
            v.push(b.to_owned());
            assert(views(v@) =~= seq![a@, b@]);
        },
        None => {
            assert(views(v@) =~= seq![a@]);
        },
    }
    v
}

fn archetype(propagate: bool, ordered: bool, accepts: Vec<String>) -> (s: SpecDecl)
    ensures
        spec_view(s) == (propagate, ordered, views(accepts@), Seq::<Seq<char>>::empty()),
{
    let s = SpecDecl { propagate, ordered, accepts, required: Vec::new() };
    assert(views(s.required@) =~= Seq::<Seq<char>>::empty());
    s
}

fn text_chunk(id: &str, name: &str, spec: Option<SpecDecl>, text: &str) -> (c: ChunkDecl)
    ensures
        c.id@ == id@,
        string_text(c.name) == Some(name@),
        c.spec == spec,
        string_text(c.body) == Some(text_body(text@)),
{
    let mut body: Vec<char> = Vec::new();
    push_str(&mut body, "{\"text\":");
    let quoted = json_string(text);
    push_str(&mut body, quoted.as_str());
    push_str(&mut body, "}");
    assert(body@ =~= text_body(text@));
    ChunkDecl { id: id.to_owned(), name: Some(name.to_owned()), spec, body: Some(string_of(&body)) }
}

fn surface(name: &str, overlay: bool) -> (c: ChunkDecl)
    ensures
        chunk_view(c) == surface_chunk(name@, overlay),
{
    let mut id: Vec<char> = Vec::new();
    push_str(&mut id, "host/");
    push_str(&mut id, name);
    let mut entry: Vec<char> = Vec::new();
    push_str(&mut entry, "programs/");
    push_str(&mut entry, name);
    push_str(&mut entry, "/src/index.tsx");
    let entry = string_of(&entry);
    let mut body: Vec<char> = Vec::new();
    push_str(&mut body, "{\"executable\":");
    let quoted = json_string(entry.as_str());
    push_str(&mut body, quoted.as_str());
    push_str(&mut body, ",\"runtime\":\"webview\",");
    if overlay {
        push_str(&mut body, "\"surface\":\"overlay\",");
    }
    push_str(&mut body, "\"text\":\"First-party demo surface program.\",\"timeout_ms\":86400000}");
    assert(body@ =~= surface_body(name@, overlay));
    assert(id@ =~= "host/"@ + name@);
    ChunkDecl { id: string_of(&id), name: Some(name.to_owned()), spec: None, body: Some(string_of(&body)) }
}

/// The host project's bootstrap declaration.
pub fn host_declaration() -> (d: Bootstrap)
    ensures
        Seq::new(d.chunks@.len(), |i: int| chunk_view(d.chunks@[i])) == host_chunks(),
        Seq::new(d.placements@.len(), |i: int| placement_of(d.placements@[i])) == host_placements(),
{
    let mut chunks: Vec<ChunkDecl> = Vec::new();
    chunks.push(text_chunk("host", "host", None, "Root scope of the host project."));
    chunks.push(text_chunk(
        "host/session",
        "session",
        Some(archetype(true, false, strings("tab", Some("process")))),
        "The outer container of the interface state: tabs and processes.",
    ));
    chunks.push(text_chunk(
        "host/tab",
        "tab",
        Some(archetype(true, false, strings("tile", None))),
        "The root of a tile tree. Workspaces are tabs.",
    ));
    let no_names: Vec<String> = Vec::new();
    proof {
        assert(views(no_names@) =~= Seq::<Seq<char>>::empty());
    }
    chunks.push(text_chunk(
        "host/tile",
        "tile",
        Some(archetype(true, true, no_names)),
        "A node in the split tree. Splits carry { direction, ratio }; leaves are empty and relate a process.",
    ));
    chunks.push(text_chunk(
        "host/overlay",
        "overlay",
        None,
        "A program rendered above its anchor rather than inside the tile composition.",
    ));
    chunks.push(text_chunk(
        "host/recipe",
        "recipe",
        Some(archetype(true, false, strings("tile", None))),
        "A preserved tile subtree that can be spawned into a new root.",
    ));
    chunks.push(ChunkDecl { id: "engine/process".to_owned(), name: None, spec: None, body: None });
    chunks.push(surface("read-tile", false));
    chunks.push(surface("sidebar", false));
    chunks.push(surface("inspector", false));
    chunks.push(surface("context-menu", true));
    let mut placements: Vec<Placement> = Vec::new();
    placements.push(instance("host/session", "host"));
    placements.push(instance("host/tab", "host"));
    placements.push(instance("host/tile", "host"));
    placements.push(instance("host/overlay", "host"));
    placements.push(instance("host/recipe", "host"));
    placements.push(relates("host/tab", "host/session"));
    placements.push(relates("engine/process", "host/session"));
    placements.push(relates("host/tile", "host/tab"));
    placements.push(relates("host/tile", "host/recipe"));
    placements.push(instance("host/read-tile", "host"));
    placements.push(instance("host/read-tile", "engine/program"));
    placements.push(instance("host/sidebar", "host"));
    placements.push(instance("host/sidebar", "engine/program"));
    placements.push(instance("host/inspector", "host"));
    placements.push(instance("host/inspector", "engine/program"));
    placements.push(instance("host/context-menu", "host"));
    placements.push(instance("host/context-menu", "engine/program"));
    assert(Seq::new(chunks@.len(), |i: int| chunk_view(chunks@[i])) =~= host_chunks());
    assert(Seq::new(placements@.len(), |i: int| placement_of(placements@[i])) =~= host_placements());
    Bootstrap { chunks, placements }
}

fn spec_decl(propagate: bool, ordered: bool, required: Vec<String>) -> (s: SpecDecl)
    ensures
        spec_view(s) == (propagate, ordered, Seq::<Seq<char>>::empty(), views(required@)),
{
    let s = SpecDecl { propagate, ordered, accepts: Vec::new(), required };
    assert(views(s.accepts@) =~= Seq::<Seq<char>>::empty());
    s
}

/// The engine bootstrap's chunks: its root, the program archetype (which
/// requires an executable and a runtime), the process archetype (which
/// propagates), and the two boundary archetypes.
pub open spec fn engine_chunks() -> Seq<(Seq<char>, Option<Seq<char>>, Option<(bool, bool, Seq<Seq<char>>, Seq<Seq<char>>)>, Option<Seq<char>>)> {
    seq![
        ("engine"@, Some("engine"@), None, Some(text_body("Root scope of the engine project."@))),
        ("engine/program"@, Some("program"@), Some((false, false, Seq::empty(), seq!["executable"@, "runtime"@])),
            Some(text_body("A chunk with an executable and a runtime declaration. Optional body fields: capabilities, boundary, timeout_ms."@))),
        ("engine/process"@, Some("process"@), Some((true, false, Seq::empty(), Seq::empty())),
            Some(text_body("The artifact of a run. Engine-written body: status, started, pid, timeout_ms, error?."@))),
        ("engine/read-boundary"@, Some("read-boundary"@), None,
            Some(text_body("Scopes a process may read; roots are relates members."@))),
        ("engine/write-boundary"@, Some("write-boundary"@), None,
            Some(text_body("Scopes a process may write; roots are relates members."@))),
    ]
}

/// The engine bootstrap's placements: the archetypes on the engine root,
/// and the boundaries related to the process archetype (they configure a
/// run rather than make up its content).
pub open spec fn engine_placements() -> Seq<(Seq<char>, Seq<char>, bool)> {
    seq![
        ("engine/program"@, "engine"@, true),
        ("engine/process"@, "engine"@, true),
        ("engine/read-boundary"@, "engine"@, true),
        ("engine/write-boundary"@, "engine"@, true),
        ("engine/read-boundary"@, "engine/process"@, false),
        ("engine/write-boundary"@, "engine/process"@, false),
    ]
}

/// The engine project's bootstrap declaration.
pub fn engine_declaration() -> (d: Bootstrap)
    ensures
        Seq::new(d.chunks@.len(), |i: int| chunk_view(d.chunks@[i])) == engine_chunks(),
        Seq::new(d.placements@.len(), |i: int| placement_of(d.placements@[i])) == engine_placements(),
{
    let mut chunks: Vec<ChunkDecl> = Vec::new();
    chunks.push(text_chunk("engine", "engine", None, "Root scope of the engine project."));
    chunks.push(text_chunk(
        "engine/program",
        "program",
        Some(spec_decl(false, false, strings("executable", Some("runtime")))),
        "A chunk with an executable and a runtime declaration. Optional body fields: capabilities, boundary, timeout_ms.",
    ));
    let none: Vec<String> = Vec::new();
    proof {
        assert(views(none@) =~= Seq::<Seq<char>>::empty());
    }
    chunks.push(text_chunk(
        "engine/process",
        "process",
        Some(spec_decl(true, false, none)),
        "The artifact of a run. Engine-written body: status, started, pid, timeout_ms, error?.",
    ));
    chunks.push(text_chunk(
        "engine/read-boundary",
        "read-boundary",
        None,
        "Scopes a process may read; roots are relates members.",
    ));
    chunks.push(text_chunk(
        "engine/write-boundary",
        "write-boundary",
        None,
        "Scopes a process may write; roots are relates members.",
    ));
    let mut placements: Vec<Placement> = Vec::new();
    placements.push(instance("engine/program", "engine"));
    placements.push(instance("engine/process", "engine"));
    placements.push(instance("engine/read-boundary", "engine"));
    placements.push(instance("engine/write-boundary", "engine"));
    placements.push(relates("engine/read-boundary", "engine/process"));
    placements.push(relates("engine/write-boundary", "engine/process"));
    assert(Seq::new(chunks@.len(), |i: int| chunk_view(chunks@[i])) =~= engine_chunks());
    assert(Seq::new(placements@.len(), |i: int| placement_of(placements@[i])) =~= engine_placements());
    Bootstrap { chunks, placements }
}

/// The agents bootstrap's chunks: its root, the session archetype (whose
/// turns are ordered), and the control archetype (which requires a signal).
pub open spec fn agents_chunks() -> Seq<(Seq<char>, Option<Seq<char>>, Option<(bool, bool, Seq<Seq<char>>, Seq<Seq<char>>)>, Option<Seq<char>>)> {
    seq![
        ("agents"@, Some("agents"@), None, Some(text_body("Root scope of the agents project."@))),
        ("agents/session"@, Some("session"@), Some((true, true, Seq::empty(), Seq::empty())),
            Some(text_body("An agent session is turns: each entity the invocation's process chunk, dual-placed with seq. Content deliberately wildcard."@))),
        ("agents/control"@, Some("control"@), Some((false, false, Seq::empty(), seq!["signal"@])),
            Some(text_body("pause | resume | abort-completion | adjust; body.target names the turn (defaults to the active one)."@))),
    ]
}

/// The agents bootstrap's placements.
pub open spec fn agents_placements() -> Seq<(Seq<char>, Seq<char>, bool)> {
    seq![
        ("agents/session"@, "agents"@, true),
        ("agents/control"@, "agents"@, true),
        ("agents/control"@, "agents/session"@, false),
    ]
}

/// The agents project's bootstrap declaration.
pub fn agents_declaration() -> (d: Bootstrap)
    ensures
        Seq::new(d.chunks@.len(), |i: int| chunk_view(d.chunks@[i])) == agents_chunks(),
        Seq::new(d.placements@.len(), |i: int| placement_of(d.placements@[i])) == agents_placements(),
{
    let mut chunks: Vec<ChunkDecl> = Vec::new();
    chunks.push(text_chunk("agents", "agents", None, "Root scope of the agents project."));
    let none: Vec<String> = Vec::new();
    proof {
        assert(views(none@) =~= Seq::<Seq<char>>::empty());
    }
    chunks.push(text_chunk(
        "agents/session",
        "session",
        Some(spec_decl(true, true, none)),
        "An agent session is turns: each entity the invocation's process chunk, dual-placed with seq. Content deliberately wildcard.",
    ));
    chunks.push(text_chunk(
        "agents/control",
        "control",
        Some(spec_decl(false, false, strings("signal", None))),
        "pause | resume | abort-completion | adjust; body.target names the turn (defaults to the active one).",
    ));
    let mut placements: Vec<Placement> = Vec::new();
    placements.push(instance("agents/session", "agents"));
    placements.push(instance("agents/control", "agents"));
    placements.push(relates("agents/control", "agents/session"));
    assert(Seq::new(chunks@.len(), |i: int| chunk_view(chunks@[i])) =~= agents_chunks());
    assert(Seq::new(placements@.len(), |i: int| placement_of(placements@[i])) =~= agents_placements());
    Bootstrap { chunks, placements }
}

/// The bootstrap for a first-party project, keyed by its config name: its
/// root chunk's id (whose presence marks the project as seeded) and its
/// declaration. Other projects have none.
pub fn routine_for(project_name: &str) -> (r: Option<(&'static str, Bootstrap)>)
    ensures
        match r {
            None => project_name@ != "engine"@ && project_name@ != "host"@ && project_name@ != "agents"@,
            Some((root, d)) => root@ == project_name@ && (root@ == "engine"@ || root@ == "host"@ || root@ == "agents"@)
                && Seq::new(d.chunks@.len(), |i: int| chunk_view(d.chunks@[i])) == (if root@ == "engine"@ {
                    engine_chunks()
                } else if root@ == "host"@ {
                    host_chunks()
                } else {
                    agents_chunks()
                }) && Seq::new(d.placements@.len(), |i: int| placement_of(d.placements@[i])) == (if root@
                    == "engine"@ {
                    engine_placements()
                } else if root@ == "host"@ {
                    host_placements()
                } else {
                    agents_placements()
                }),
        },
{
    proof {
        reveal_strlit("engine");
        reveal_strlit("host");
        reveal_strlit("agents");
    }
    if same_text(project_name, "engine") {
        Some(("engine", engine_declaration()))
    } else if same_text(project_name, "host") {
        Some(("host", host_declaration()))
    } else if same_text(project_name, "agents") {
        Some(("agents", agents_declaration()))
    } else {
        None
    }
}

} // verus!
