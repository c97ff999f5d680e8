//! The mounts cascade: from the active project's config, into each mount's
//! own config, recursively. Projects are deduplicated by canonical path in
//! first-encountered order; the first declaration encountered (pre-order)
//! pins a mount's branch, so the declarer nearest the active project wins; a
//! project reachable from itself is a cycle and rejects.
//!
//! Loading a project is the caller's work. The walk is a state machine: each
//! step names the path it needs loaded next, and is resumed with what the
//! load found, until it is done.

use vstd::prelude::*;
use crate::protocol::same_text;
use crate::search::{first_where, lemma_first_found};
use crate::text::{push_str, string_of};

verus! {

#[derive(Debug, Clone, PartialEq)]
pub struct MountDecl {
    /// As declared: relative paths resolve against the declaring project.
    pub path: String,
    pub branch: String,
}

#[derive(Debug, Clone, PartialEq)]
pub struct ProjectConfig {
    pub name: String,
    pub mounts: Vec<MountDecl>,
}

#[derive(Debug, Clone, PartialEq)]
pub struct ResolvedProject {
    pub path: String,
    pub name: String,
    /// The branch this project's reads pin; the active project's own entry
    /// carries the default branch, since nobody mounts it.
    pub branch: String,
}

#[derive(Debug, Clone, PartialEq)]
pub struct Cascade {
    pub active: ResolvedProject,
    /// Peers in first-encountered order, deduplicated by canonical path.
    pub peers: Vec<ResolvedProject>,
}

#[derive(Debug, Clone, PartialEq)]
pub enum CascadeError {
    Load { path: String, message: String },
    Parse { path: String, message: String },
    /// A project reachable from itself through mounts.
    Cycle { path: String },
    /// A project the host needs is missing from the cascade.
    MissingRequired { name: String },
}

/// The branch a project's reads pin when no declaration names one.
pub const DEFAULT_BRANCH: &'static str = "main";

/// The name `names[i]` is carried by the active project or by a peer.
pub open spec fn present(cascade: Cascade, name: Seq<char>) -> bool {
    cascade.active.name@ == name || exists|j: int|
        0 <= j < cascade.peers@.len() && (#[trigger] cascade.peers@[j]).name@ == name
}

/// Position `i` of `names` names a project the cascade lacks.
pub open spec fn lacks(cascade: Cascade, names: Seq<&str>) -> spec_fn(int) -> bool {
    |i: int| !present(cascade, names[i]@)
}

fn is_present(cascade: &Cascade, name: &str) -> (r: bool)
    ensures
        r == present(*cascade, name@),
{
    if same_text(cascade.active.name.as_str(), name) {
        return true;
    }
    let mut j: usize = 0;
    while j < cascade.peers.len()
        invariant
            j <= cascade.peers@.len(),
            forall|k: int| 0 <= k < j ==> (#[trigger] cascade.peers@[k]).name@ != name@,
        decreases cascade.peers.len() - j,
    {
        if same_text(cascade.peers[j].name.as_str(), name) {
            return true;
        }
        j = j + 1;
    }
    false
}

/// Refuses a cascade that lacks one of the named projects, naming the first
/// one missing.
pub fn require(cascade: &Cascade, names: &[&str]) -> (r: Result<(), CascadeError>)
    ensures
        match first_where(names@.len() as int, lacks(*cascade, names@)) {
            None => r is Ok,
            Some(i) => r matches Err(CascadeError::MissingRequired { name }) && name@
                == names@[i]@,
        },
{
    let mut i: usize = 0;
    while i < names.len()
        invariant
            i <= names@.len(),
            first_where(i as int, lacks(*cascade, names@)) is None,
        decreases names.len() - i,
    {
        if !is_present(cascade, names[i]) {
            proof {
                lemma_first_found(lacks(*cascade, names@), i as int, names@.len() as int);
            }
            return Err(CascadeError::MissingRequired { name: names[i].to_owned() });
        }
        i = i + 1;
    }
    Ok(())
}

/// Project `k` of the active project followed by the peers is named `name`.
pub open spec fn project_named(cascade: Cascade, name: Seq<char>) -> spec_fn(int) -> bool {
    |k: int|
        if k == 0 {
            cascade.active.name@ == name
        } else {
            cascade.peers@[k - 1].name@ == name
        }
}

/// Where the named project lies: the active project first, then the peers.
pub fn project_path(cascade: &Cascade, name: &str) -> (path: Option<String>)
    ensures
        match first_where(cascade.peers@.len() + 1 as int, project_named(*cascade, name@)) {
            None => path is None,
            Some(k) => path matches Some(p) && p@ == (if k == 0 {
                cascade.active.path@
            } else {
                cascade.peers@[k - 1].path@
            }),
        },
{
    if same_text(cascade.active.name.as_str(), name) {
        proof {
            lemma_first_found(project_named(*cascade, name@), 0, cascade.peers@.len() + 1 as int);
        }
        return Some(cascade.active.path.clone());
    }
    assert(!project_named(*cascade, name@)(0));
    assert(first_where(0, project_named(*cascade, name@)) is None);
    assert(first_where(1, project_named(*cascade, name@)) is None);
    let mut j: usize = 0;
    while j < cascade.peers.len()
        invariant
            j <= cascade.peers@.len(),
            first_where(j + 1, project_named(*cascade, name@)) is None,
        decreases cascade.peers.len() - j,
    {
        if same_text(cascade.peers[j].name.as_str(), name) {
            proof {
                lemma_first_found(project_named(*cascade, name@), j + 1, cascade.peers@.len() + 1 as int);
            }
            return Some(cascade.peers[j].path.clone());
        }
        j = j + 1;
    }
    None
}

/// What std's `Path::join` makes of a base and a declared path, written back
/// as a string.
pub uninterp spec fn joined(base: Seq<char>, relative: Seq<char>) -> Seq<char>;

/// std's `Path::join` on paths given as strings; the contract names the
/// answer, a function of the two paths, by `joined`.
#[verifier::external_body]
pub(crate) fn join_path(base: &str, relative: &str) -> (path: String)
    ensures
        path@ == joined(base@, relative@),
{
    std::path::Path::new(base).join(relative).to_string_lossy().into_owned()
}

/// What loading one project found.
#[derive(Debug)]
pub enum Loaded {
    /// The project's canonical path and its config as read (or why it could
    /// not be read).
    Found { canonical: String, config: Result<ProjectConfig, String> },
    /// The project could not be loaded.
    Failed { message: String },
}

/// Where a walk stands after a step.
pub enum Step {
    /// Load `path` and resume `walk` with what was found.
    Load { walk: Walk, path: String },
    /// The walk is over.
    Done(Result<Cascade, CascadeError>),
}

/// A project being visited: its mounts, how many of them have been loaded,
/// and the loaded ones still to be visited, in declaration order.
struct Frame {
    path: String,
    mounts: Vec<MountDecl>,
    next_mount: usize,
    loaded: Vec<(String, Result<ProjectConfig, String>)>,
}

/// A walk in progress.
pub struct Walk {
    active: String,
    root: Option<String>,
    /// Canonical path and name of every project visited, first-encountered
    /// order.
    names: Vec<(String, String)>,
    /// Canonical path and branch of every mount declared, first declaration
    /// first.
    pins: Vec<(String, String)>,
    frames: Vec<Frame>,
}

/// A pair of strings read as characters.
pub open spec fn pair_views(s: Seq<(String, String)>) -> Seq<(Seq<char>, Seq<char>)> {
    Seq::new(s.len(), |i: int| (s[i].0@, s[i].1@))
}

/// No two entries share a first component.
pub open spec fn keys_distinct(s: Seq<(Seq<char>, Seq<char>)>) -> bool {
    forall|i: int, j: int| 0 <= i < s.len() && 0 <= j < s.len() && i != j ==> (#[trigger] s[i]).0 != (#[trigger] s[j]).0
}

/// Some entry has this first component.
pub open spec fn has_key(s: Seq<(Seq<char>, Seq<char>)>, k: Seq<char>) -> bool {
    exists|i: int| 0 <= i < s.len() && (#[trigger] s[i]).0 == k
}

/// The branch pinned for `path`: the first declaration's, else the default.
pub open spec fn pin_of(pins: Seq<(Seq<char>, Seq<char>)>, path: Seq<char>) -> Seq<char> {
    if has_key(pins, path) {
        pins[choose|i: int| 0 <= i < pins.len() && (#[trigger] pins[i]).0 == path].1
    } else {
        DEFAULT_BRANCH@
    }
}

pub open spec fn project_view(p: ResolvedProject) -> (Seq<char>, Seq<char>, Seq<char>) {
    (p.path@, p.name@, p.branch@)
}

/// A config read as plain values: the project's name and its mounts, each
/// as declared path and branch.
pub open spec fn config_view(c: ProjectConfig) -> (Seq<char>, Seq<(Seq<char>, Seq<char>)>) {
    (c.name@, Seq::new(c.mounts@.len(), |i: int| (c.mounts@[i].path@, c.mounts@[i].branch@)))
}

/// A config as read: the config, or why it could not be read.
pub open spec fn read_view(r: Result<ProjectConfig, String>) -> Result<(Seq<char>, Seq<(Seq<char>, Seq<char>)>), Seq<char>> {
    match r {
        Ok(c) => Ok(config_view(c)),
        Err(m) => Err(m@),
    }
}

/// What a load found, as plain values: the canonical path and the config
/// as read, or why the project could not be loaded.
pub open spec fn loaded_view(l: Loaded) -> Result<(Seq<char>, Result<(Seq<char>, Seq<(Seq<char>, Seq<char>)>), Seq<char>>), Seq<char>> {
    match l {
        Loaded::Found { canonical, config } => Ok((canonical@, read_view(config))),
        Loaded::Failed { message } => Err(message@),
    }
}

/// A project being visited, as plain values: its canonical path, its mounts,
/// how many of them have been loaded, and the loaded ones still to visit
/// (canonical path and config as read), in declaration order.
#[verifier::ext_equal]
pub struct FrameState {
    pub path: Seq<char>,
    pub mounts: Seq<(Seq<char>, Seq<char>)>,
    pub next: int,
    pub loaded: Seq<(Seq<char>, Result<(Seq<char>, Seq<(Seq<char>, Seq<char>)>), Seq<char>>)>,
}

/// A walk as plain values: the active project's path as given, its canonical
/// path once known, the projects visited (path and name) in first-encountered
/// order, the pins (path and branch) first declaration first, and the
/// projects being visited, outermost first.
#[verifier::ext_equal]
pub struct WalkState {
    pub active: Seq<char>,
    pub root: Option<Seq<char>>,
    pub names: Seq<(Seq<char>, Seq<char>)>,
    pub pins: Seq<(Seq<char>, Seq<char>)>,
    pub frames: Seq<FrameState>,
}

/// Why a walk failed, as plain values.
pub enum Failure {
    Load(Seq<char>, Seq<char>),
    Parse(Seq<char>, Seq<char>),
    Cycle(Seq<char>),
    Missing(Seq<char>),
}

/// A cascade error as plain values.
pub open spec fn failure_view(e: CascadeError) -> Failure {
    match e {
        CascadeError::Load { path, message } => Failure::Load(path@, message@),
        CascadeError::Parse { path, message } => Failure::Parse(path@, message@),
        CascadeError::Cycle { path } => Failure::Cycle(path@),
        CascadeError::MissingRequired { name } => Failure::Missing(name@),
    }
}

/// Where a walk stands after a step, as plain values: the walk and the path
/// it asks to have loaded, the finished cascade (the active project, then the
/// peers, each as path, name and branch), or the failure.
pub enum Stepped {
    Ask(WalkState, Seq<char>),
    Finished((Seq<char>, Seq<char>, Seq<char>), Seq<(Seq<char>, Seq<char>, Seq<char>)>),
    Failed(Failure),
}

/// Some project being visited has this canonical path.
pub open spec fn on_path(frames: Seq<FrameState>, path: Seq<char>) -> bool {
    exists|i: int| 0 <= i < frames.len() && (#[trigger] frames[i]).path == path
}

/// The loaded projects still to visit, over every frame.
pub open spec fn pending_visits(frames: Seq<FrameState>) -> nat
    decreases frames.len(),
{
    if frames.len() == 0 {
        0
    } else {
        pending_visits(frames.drop_last()) + frames.last().loaded.len()
    }
}

/// How a walk goes on until it needs a load or ends. When nothing is being
/// visited, the cascade is done. Otherwise, looking at the innermost project:
/// if a mount of it is still unloaded, the next one is asked for, its path
/// joined to the project's; else its first loaded mount still to visit is
/// visited: a project still being visited is a cycle, one visited before is
/// passed over, one whose config did not read fails, and otherwise it is
/// recorded and its own mounts are walked next; a project with nothing left
/// is done with.
pub open spec fn advance_state(
    active: Seq<char>,
    root: Seq<char>,
    names: Seq<(Seq<char>, Seq<char>)>,
    pins: Seq<(Seq<char>, Seq<char>)>,
    frames: Seq<FrameState>,
) -> Stepped
    decreases frames.len() + 2 * pending_visits(frames),
{
    if frames.len() == 0 {
        let c = cascade_of(names, pins);
        Stepped::Finished(c.0, c.1)
    } else {
        let top = frames.last();
        let rest = frames.drop_last();
        if 0 <= top.next < top.mounts.len() {
            Stepped::Ask(
                WalkState { active, root: Some(root), names, pins, frames },
                joined(top.path, top.mounts[top.next].0),
            )
        } else if top.loaded.len() > 0 {
            let child = top.loaded[0].0;
            let read = top.loaded[0].1;
            let after = rest.push(FrameState { loaded: top.loaded.drop_first(), ..top });
            proof {
                assert(after.drop_last() =~= rest);
                assert(frames.drop_last() =~= rest);
            }
            if on_path(after, child) {
                Stepped::Failed(Failure::Cycle(child))
            } else if has_key(names, child) {
                advance_state(active, root, names, pins, after)
            } else {
                match read {
                    Err(m) => Stepped::Failed(Failure::Parse(child, m)),
                    Ok(config) => {
                        let entered = after.push(
                            FrameState { path: child, mounts: config.1, next: 0, loaded: Seq::empty() },
                        );
                        proof {
                            assert(entered.drop_last() =~= after);
                        }
                        advance_state(active, root, names.push((child, config.0)), pins, entered)
                    },
                }
            }
        } else {
            advance_state(active, root, names, pins, rest)
        }
    }
}

/// Some project being visited still awaits a visit of `path`.
pub open spec fn awaits(frames: Seq<FrameState>, path: Seq<char>) -> bool {
    exists|i: int, j: int| 0 <= i < frames.len() && 0 <= j < frames[i].loaded.len() && (#[trigger] frames[i].loaded[j]).0 == path
}

/// The active project is the outermost project being visited, and a mount
/// that pinned it is still to be visited (where it can only be a cycle).
pub open spec fn rooted(root: Seq<char>, pins: Seq<(Seq<char>, Seq<char>)>, frames: Seq<FrameState>) -> bool {
    &&& (frames.len() > 0 ==> frames[0].path == root)
    &&& (has_key(pins, root) ==> awaits(frames, root))
}

/// Visiting the first loaded mount of the innermost project keeps the walk
/// rooted, unless it is the active project, which is then still being
/// visited.
proof fn lemma_rooted_visit(root: Seq<char>, pins: Seq<(Seq<char>, Seq<char>)>, frames: Seq<FrameState>)
    requires
        rooted(root, pins, frames),
        frames.len() > 0,
        frames.last().loaded.len() > 0,
    ensures
        ({
            let top = frames.last();
            let after = frames.drop_last().push(FrameState { loaded: top.loaded.drop_first(), ..top });
            &&& on_path(after, root)
            &&& (top.loaded[0].0 != root ==> rooted(root, pins, after))
            &&& forall|f: FrameState| f.loaded.len() == 0 && top.loaded[0].0 != root ==> rooted(root, pins, #[trigger] after.push(f))
        }),
{
    let top = frames.last();
    let after = frames.drop_last().push(FrameState { loaded: top.loaded.drop_first(), ..top });
    assert(after[0].path == root);
    if top.loaded[0].0 != root {
        if has_key(pins, root) {
            let (i, j) = choose|i: int, j: int| 0 <= i < frames.len() && 0 <= j < frames[i].loaded.len() && (#[trigger] frames[i].loaded[j]).0 == root;
            if i < frames.len() - 1 {
                assert(after[i] == frames[i]);
                assert(after[i].loaded[j].0 == root);
            } else {
                assert(j > 0);
                assert(after[i].loaded[j - 1] == top.loaded[j]);
            }
            assert(awaits(after, root));
            assert forall|f: FrameState| f.loaded.len() == 0 implies awaits(#[trigger] after.push(f), root) by {
                if i < frames.len() - 1 {
                    assert(after.push(f)[i] == frames[i]);
                    assert(after.push(f)[i].loaded[j].0 == root);
                } else {
                    assert(after.push(f)[i].loaded[j - 1] == top.loaded[j]);
                }
            }
        }
        assert forall|f: FrameState| f.loaded.len() == 0 implies rooted(root, pins, #[trigger] after.push(f)) by {
            assert(after.push(f)[0] == after[0]);
        }
    }
}

/// Finishing the innermost project, with nothing left to visit in it, keeps
/// the walk rooted.
proof fn lemma_rooted_pop(root: Seq<char>, pins: Seq<(Seq<char>, Seq<char>)>, frames: Seq<FrameState>)
    requires
        rooted(root, pins, frames),
        frames.len() > 0,
        frames.last().loaded.len() == 0,
    ensures
        rooted(root, pins, frames.drop_last()),
{
    if has_key(pins, root) {
        let (i, j) = choose|i: int, j: int| 0 <= i < frames.len() && 0 <= j < frames[i].loaded.len() && (#[trigger] frames[i].loaded[j]).0 == root;
        assert(frames.drop_last()[i] == frames[i]);
        assert(frames.drop_last()[i].loaded[j].0 == root);
    }
}

/// Loading a mount of the innermost project keeps the walk rooted: if it
/// pins the active project, that load now awaits its visit.
proof fn lemma_rooted_load(
    root: Seq<char>,
    pins: Seq<(Seq<char>, Seq<char>)>,
    frames: Seq<FrameState>,
    canonical: Seq<char>,
    read: Result<(Seq<char>, Seq<(Seq<char>, Seq<char>)>), Seq<char>>,
    branch: Seq<char>,
)
    requires
        rooted(root, pins, frames),
        frames.len() > 0,
    ensures
        rooted(
            root,
            pinned_after(pins, canonical, branch),
            frames.drop_last().push(
                FrameState { next: frames.last().next + 1, loaded: frames.last().loaded.push((canonical, read)), ..frames.last() },
            ),
        ),
{
    let top = frames.last();
    let grown = frames.drop_last().push(FrameState { next: top.next + 1, loaded: top.loaded.push((canonical, read)), ..top });
    assert(grown[0].path == root);
    let p2 = pinned_after(pins, canonical, branch);
    if has_key(p2, root) {
        if has_key(pins, root) {
            let (i, j) = choose|i: int, j: int| 0 <= i < frames.len() && 0 <= j < frames[i].loaded.len() && (#[trigger] frames[i].loaded[j]).0 == root;
            if i < frames.len() - 1 {
                assert(grown[i] == frames[i]);
                assert(grown[i].loaded[j].0 == root);
            } else {
                assert(grown[i].loaded[j] == top.loaded[j]);
            }
        } else {
            let k = choose|k: int| 0 <= k < p2.len() && (#[trigger] p2[k]).0 == root;
            assert(p2 == pins.push((canonical, branch)));
            if k < pins.len() {
                assert(p2[k] == pins[k]);
            }
            assert(canonical == root);
            let last = frames.len() - 1;
            assert(grown[last].loaded[top.loaded.len() as int].0 == root);
        }
    }
}

/// A rooted walk that finishes leaves the active project on the default
/// branch: a mount that names it pins it, but visiting that mount is a
/// cycle, so no finished walk has it pinned.
proof fn lemma_finished_on_default(
    active: Seq<char>,
    root: Seq<char>,
    names: Seq<(Seq<char>, Seq<char>)>,
    pins: Seq<(Seq<char>, Seq<char>)>,
    frames: Seq<FrameState>,
)
    requires
        rooted(root, pins, frames),
        names.len() > 0,
        names[0].0 == root,
    ensures
        advance_state(active, root, names, pins, frames) matches Stepped::Finished(a, _) ==> a.0 == root && a.2
            == DEFAULT_BRANCH@,
    decreases frames.len() + 2 * pending_visits(frames),
{
    if frames.len() > 0 {
        let top = frames.last();
        let rest = frames.drop_last();
        if 0 <= top.next < top.mounts.len() {
        } else if top.loaded.len() > 0 {
            let child = top.loaded[0].0;
            let after = rest.push(FrameState { loaded: top.loaded.drop_first(), ..top });
            lemma_rooted_visit(root, pins, frames);
            assert(after.drop_last() =~= rest);
            assert(frames.drop_last() =~= rest);
            if !on_path(after, child) {
                assert(child != root);
                if has_key(names, child) {
                    lemma_finished_on_default(active, root, names, pins, after);
                } else {
                    match top.loaded[0].1 {
                        Err(_) => {},
                        Ok(config) => {
                            let f = FrameState { path: child, mounts: config.1, next: 0, loaded: Seq::empty() };
                            let entered = after.push(f);
                            assert(rooted(root, pins, entered));
                            assert(entered.drop_last() =~= after);
                            lemma_finished_on_default(active, root, names.push((child, config.0)), pins, entered);
                        },
                    }
                }
            }
        } else {
            lemma_rooted_pop(root, pins, frames);
            lemma_finished_on_default(active, root, names, pins, rest);
        }
    }
}

/// One step of a walk, given what loading the path it asked for found. The
/// first load is the active project's: a load failure is refused at the
/// path as given, a config that does not read is refused, and otherwise the
/// project is recorded as the first visited and the walk goes on. Every later
/// load is a mount of the innermost project: a load failure is refused at the
/// path asked; otherwise the mount pins its project's branch unless an
/// earlier declaration did, the project joins the loaded mounts still to
/// visit, and the walk goes on.
pub open spec fn resume_state(
    w: WalkState,
    got: Result<(Seq<char>, Result<(Seq<char>, Seq<(Seq<char>, Seq<char>)>), Seq<char>>), Seq<char>>,
) -> Stepped {
    match w.root {
        None => match got {
            Err(m) => Stepped::Failed(Failure::Load(w.active, m)),
            Ok((canonical, read)) => match read {
                Err(m) => Stepped::Failed(Failure::Parse(canonical, m)),
                Ok(config) => advance_state(
                    w.active,
                    canonical,
                    seq![(canonical, config.0)],
                    w.pins,
                    seq![FrameState { path: canonical, mounts: config.1, next: 0, loaded: Seq::empty() }],
                ),
            },
        },
        Some(root) => {
            let top = w.frames.last();
            match got {
                Err(m) => Stepped::Failed(Failure::Load(joined(top.path, top.mounts[top.next].0), m)),
                Ok((canonical, read)) => advance_state(
                    w.active,
                    root,
                    w.names,
                    pinned_after(w.pins, canonical, top.mounts[top.next].1),
                    w.frames.drop_last().push(
                        FrameState { next: top.next + 1, loaded: top.loaded.push((canonical, read)), ..top },
                    ),
                ),
            }
        },
    }
}

/// `step` is the step `s` describes.
pub open spec fn step_is(step: Step, s: Stepped) -> bool {
    match s {
        Stepped::Ask(w, path) => step matches Step::Load { walk, path: p } && walk.state() == w && p@ == path,
        Stepped::Finished(active, peers) => step matches Step::Done(Ok(c)) && cascade_view(c).0 == active
            && cascade_view(c).1 == peers,
        Stepped::Failed(f) => step matches Step::Done(Err(e)) && failure_view(e) == f,
    }
}

/// A frame read as plain values.
spec fn frame_view(f: Frame) -> FrameState {
    FrameState {
        path: f.path@,
        mounts: Seq::new(f.mounts@.len(), |i: int| (f.mounts@[i].path@, f.mounts@[i].branch@)),
        next: f.next_mount as int,
        loaded: Seq::new(f.loaded@.len(), |i: int| (f.loaded@[i].0@, read_view(f.loaded@[i].1))),
    }
}

/// The frames read as plain values.
spec fn frames_view(fs: Seq<Frame>) -> Seq<FrameState> {
    Seq::new(fs.len(), |i: int| frame_view(fs[i]))
}

impl Walk {
    #[verifier::type_invariant]
    spec fn consistent(self) -> bool {
        &&& keys_distinct(pair_views(self.names@))
        &&& keys_distinct(pair_views(self.pins@))
        &&& (self.frames@.len() == 0 <==> self.root is None)
        &&& (self.root is None ==> self.names@.len() == 0)
        &&& (self.root matches Some(r) ==> self.names@.len() > 0 && self.names@[0].0@ == r@)
        &&& (self.frames@.len() > 0 ==> self.frames@.last().next_mount
            < self.frames@.last().mounts@.len())
        &&& (self.root is None ==> self.pins@.len() == 0)
        &&& (self.root matches Some(r) ==> rooted(r@, pair_views(self.pins@), frames_view(self.frames@)))
    }

    /// The walk as plain values.
    pub closed spec fn state(self) -> WalkState {
        WalkState {
            active: self.active@,
            root: match self.root {
                Some(r) => Some(r@),
                None => None,
            },
            names: pair_views(self.names@),
            pins: pair_views(self.pins@),
            frames: frames_view(self.frames@),
        }
    }

    /// The projects visited so far: canonical path and name, in the order
    /// they were first encountered.
    pub open spec fn visited(self) -> Seq<(Seq<char>, Seq<char>)> {
        self.state().names
    }

    /// The branch declarations seen so far, first declaration first.
    pub open spec fn pinned(self) -> Seq<(Seq<char>, Seq<char>)> {
        self.state().pins
    }

    /// The path the walk asked to have loaded: the active project itself
    /// first, then each mount of the project being visited, joined to that
    /// project's path.
    pub open spec fn asked(self) -> Seq<char> {
        if self.state().frames.len() == 0 {
            self.state().active
        } else {
            let top = self.state().frames.last();
            joined(top.path, top.mounts[top.next].0)
        }
    }

    /// The branch the mount being loaded declares (meaningful once the
    /// active project is visited).
    pub open spec fn asked_branch(self) -> Seq<char> {
        let top = self.state().frames.last();
        top.mounts[top.next].1
    }

    /// The active project's canonical path, once it is known.
    pub open spec fn root_path(self) -> Option<Seq<char>> {
        self.state().root
    }
}

/// The pins after a mount of `path` declaring `branch` is loaded: the first
/// declaration of a project pins it, and later ones change nothing.
pub open spec fn pinned_after(
    p: Seq<(Seq<char>, Seq<char>)>,
    path: Seq<char>,
    branch: Seq<char>,
) -> Seq<(Seq<char>, Seq<char>)> {
    if has_key(p, path) {
        p
    } else {
        p.push((path, branch))
    }
}

/// The walk from the active project at `active`: its first step asks for
/// that project.
pub fn start(active: &str) -> (step: Step)
    ensures
        step matches Step::Load { walk, path } && path@ == active@ && walk.asked() == active@
            && walk.visited().len() == 0 && walk.pinned().len() == 0 && walk.root_path() is None,
        step matches Step::Load { walk, path: _ } && walk.state() == (WalkState {
            active: active@,
            root: None,
            names: Seq::empty(),
            pins: Seq::empty(),
            frames: Seq::empty(),
        }),
{
    let walk = Walk {
        active: active.to_owned(),
        root: None,
        names: Vec::new(),
        pins: Vec::new(),
        frames: Vec::new(),
    };
    assert(walk.visited() =~= Seq::empty());
    assert(walk.pinned() =~= Seq::empty());
    assert(frames_view(walk.frames@) =~= Seq::empty());
    Step::Load { walk, path: active.to_owned() }
}

/// The cascade a walk's bookkeeping describes: the first project visited is
/// the active one, the rest are its peers in the order first encountered,
/// each with the branch its first declaration pinned.
pub open spec fn cascade_of(v: Seq<(Seq<char>, Seq<char>)>, p: Seq<(Seq<char>, Seq<char>)>) -> (
    (Seq<char>, Seq<char>, Seq<char>),
    Seq<(Seq<char>, Seq<char>, Seq<char>)>,
) {
    (
        (v[0].0, v[0].1, pin_of(p, v[0].0)),
        Seq::new((v.len() - 1) as nat, |i: int| (v[i + 1].0, v[i + 1].1, pin_of(p, v[i + 1].0))),
    )
}

pub open spec fn cascade_view(c: Cascade) -> (
    (Seq<char>, Seq<char>, Seq<char>),
    Seq<(Seq<char>, Seq<char>, Seq<char>)>,
) {
    (project_view(c.active), Seq::new(c.peers@.len(), |i: int| project_view(c.peers@[i])))
}

/// The laws of a finished cascade, read off the bookkeeping it came from:
/// every project appears once and the active project is no peer; projects
/// visited earlier keep their place; a branch pinned earlier stays pinned.
pub proof fn cascade_laws(
    v: Seq<(Seq<char>, Seq<char>)>,
    p: Seq<(Seq<char>, Seq<char>)>,
    earlier_v: Seq<(Seq<char>, Seq<char>)>,
    earlier_p: Seq<(Seq<char>, Seq<char>)>,
)
    requires
        v.len() > 0,
        keys_distinct(v),
        keys_distinct(p),
        earlier_v.is_prefix_of(v),
        earlier_p.is_prefix_of(p),
    ensures
        forall|i: int, j: int|
            0 <= i < j < cascade_of(v, p).1.len() ==> (#[trigger] cascade_of(v, p).1[i]).0
                != (#[trigger] cascade_of(v, p).1[j]).0,
        forall|i: int|
            0 <= i < cascade_of(v, p).1.len() ==> (#[trigger] cascade_of(v, p).1[i]).0
                != cascade_of(v, p).0.0,
        forall|i: int|
            0 < i < earlier_v.len() ==> (#[trigger] cascade_of(v, p).1[i - 1]).0 == earlier_v[i].0
                && cascade_of(v, p).1[i - 1].1 == earlier_v[i].1,
        forall|k: Seq<char>| #[trigger] has_key(earlier_p, k) ==> pin_of(p, k) == pin_of(earlier_p, k),
{
    let c = cascade_of(v, p);
    assert forall|i: int, j: int| 0 <= i < j < c.1.len() implies (#[trigger] c.1[i]).0
        != (#[trigger] c.1[j]).0 by {
        assert(v[i + 1].0 != v[j + 1].0);
    }
    assert forall|i: int| 0 <= i < c.1.len() implies (#[trigger] c.1[i]).0 != c.0.0 by {
        assert(v[i + 1].0 != v[0].0);
    }
    assert forall|i: int| 0 < i < earlier_v.len() implies (#[trigger] c.1[i - 1]).0
        == earlier_v[i].0 && c.1[i - 1].1 == earlier_v[i].1 by {
        assert(earlier_v[i] == v[i]);
    }
    assert forall|k: Seq<char>| #[trigger] has_key(earlier_p, k) implies pin_of(p, k) == pin_of(
        earlier_p,
        k,
    ) by {
        let i = choose|i: int| 0 <= i < earlier_p.len() && (#[trigger] earlier_p[i]).0 == k;
        assert(p[i] == earlier_p[i]);
        assert(has_key(p, k));
        let a = choose|j: int| 0 <= j < p.len() && (#[trigger] p[j]).0 == k;
        let b = choose|j: int| 0 <= j < earlier_p.len() && (#[trigger] earlier_p[j]).0 == k;
        assert(p[b] == earlier_p[b]);
        assert(a == b);
    }
}

/// Where `key` stands among the entries, if anywhere.
fn key_index(s: &Vec<(String, String)>, key: &str) -> (r: Option<usize>)
    ensures
        match r {
            Some(i) => i < s@.len() && s@[i as int].0@ == key@,
            None => !has_key(pair_views(s@), key@),
        },
{
    let mut i: usize = 0;
    while i < s.len()
        invariant
            i <= s@.len(),
            forall|j: int| 0 <= j < i ==> (#[trigger] s@[j]).0@ != key@,
        decreases s.len() - i,
    {
        if same_text(s[i].0.as_str(), key) {
            return Some(i);
        }
        i = i + 1;
    }
    assert forall|j: int| 0 <= j < pair_views(s@).len() implies (#[trigger] pair_views(s@)[j]).0
        != key@ by {
        assert(pair_views(s@)[j].0 == s@[j].0@);
    }
    None
}

/// The branch pinned for `path`.
fn pin_lookup(pins: &Vec<(String, String)>, path: &str) -> (branch: String)
    requires
        keys_distinct(pair_views(pins@)),
    ensures
        branch@ == pin_of(pair_views(pins@), path@),
{
    match key_index(pins, path) {
        Some(i) => {
            let ghost v = pair_views(pins@);
            assert(v[i as int].0 == path@);
            assert(has_key(v, path@));
            let ghost j = choose|j: int| 0 <= j < v.len() && (#[trigger] v[j]).0 == path@;
            assert(j == i);
            pins[i].1.clone()
        },
        None => DEFAULT_BRANCH.to_owned(),
    }
}

/// Whether `path` is a project still being visited.
fn on_stack(frames: &Vec<Frame>, path: &str) -> (r: bool)
    ensures
        r <==> exists|i: int| 0 <= i < frames@.len() && (#[trigger] frames@[i]).path@ == path@,
{
    let mut i: usize = 0;
    while i < frames.len()
        invariant
            i <= frames@.len(),
            forall|j: int| 0 <= j < i ==> (#[trigger] frames@[j]).path@ != path@,
        decreases frames.len() - i,
    {
        if same_text(frames[i].path.as_str(), path) {
            return true;
        }
        i = i + 1;
    }
    false
}

/// The pending visits of every frame.
spec fn pending(fs: Seq<Frame>) -> nat
    decreases fs.len(),
{
    if fs.len() == 0 {
        0
    } else {
        pending(fs.drop_last()) + fs.last().loaded@.len()
    }
}

/// What visiting a loaded project does to the bookkeeping: a project still
/// being visited is a cycle, one visited before is passed over, one whose
/// config did not read fails, and otherwise it is recorded and entered.
spec fn visits(
    v: Visit,
    names: Seq<(Seq<char>, Seq<char>)>,
    frames: Seq<FrameState>,
    canonical: Seq<char>,
    read: Result<(Seq<char>, Seq<(Seq<char>, Seq<char>)>), Seq<char>>,
    names2: Seq<(Seq<char>, Seq<char>)>,
    frames2: Seq<FrameState>,
) -> bool {
    if on_path(frames, canonical) {
        v matches Visit::Failed(e) && failure_view(e) == Failure::Cycle(canonical)
    } else if has_key(names, canonical) {
        v is Seen && names2 == names && frames2 == frames
    } else {
        match read {
            Err(m) => v matches Visit::Failed(e) && failure_view(e) == Failure::Parse(canonical, m),
            Ok(c) => v is Entered && names2 == names.push((canonical, c.0)) && frames2 == frames.push(
                FrameState { path: canonical, mounts: c.1, next: 0, loaded: Seq::empty() },
            ),
        }
    }
}

enum Visit {
    Entered,
    Seen,
    Failed(CascadeError),
}

/// Visits a loaded project: a cycle if it is still being visited, nothing if
/// it was visited before, a parse failure if its config did not read, and
/// otherwise a new frame over its mounts.
fn visit(
    names: &mut Vec<(String, String)>,
    frames: &mut Vec<Frame>,
    canonical: String,
    config: Result<ProjectConfig, String>,
) -> (v: Visit)
    requires
        keys_distinct(pair_views(old(names)@)),
    ensures
        keys_distinct(pair_views(final(names)@)),
        match v {
            Visit::Entered => pair_views(final(names)@) == pair_views(old(names)@).push(
                (canonical@, pair_views(final(names)@).last().1),
            ) && final(frames)@.len() == old(frames)@.len() + 1 && final(frames)@.drop_last() == old(frames)@ && final(frames)@.last().loaded@.len()
                == 0 && final(frames)@.last().next_mount == 0,
            _ => final(names)@ == old(names)@ && final(frames)@ == old(frames)@,
        },
        v matches Visit::Failed(e) ==> match e {
            CascadeError::Cycle { path } => path@ == canonical@,
            CascadeError::Parse { path, message } => path@ == canonical@ && (config matches Err(m) && message@
                == m@),
            _ => false,
        },
        old(names)@.len() == 0 && old(frames)@.len() == 0 ==> match config {
            Err(reason) => v matches Visit::Failed(CascadeError::Parse { path, message })
                && path@ == canonical@ && message@ == reason@,
            Ok(_) => v is Entered,
        },
        visits(v, pair_views(old(names)@), frames_view(old(frames)@), canonical@, read_view(config),
            pair_views(final(names)@), frames_view(final(frames)@)),
{
    let ghost fv = frames_view(frames@);
    if on_stack(frames, canonical.as_str()) {
        proof {
            let i = choose|i: int| 0 <= i < frames@.len() && (#[trigger] frames@[i]).path@ == canonical@;
            assert(fv[i].path == canonical@);
        }
        return Visit::Failed(CascadeError::Cycle { path: canonical });
    }
    assert(!on_path(fv, canonical@)) by {
        if on_path(fv, canonical@) {
            let i = choose|i: int| 0 <= i < fv.len() && (#[trigger] fv[i]).path == canonical@;
            assert(frames@[i].path@ == canonical@);
        }
    }
    if let Some(i) = key_index(names, canonical.as_str()) {
        assert(pair_views(names@)[i as int].0 == canonical@);
        return Visit::Seen;
    }
    match config {
        Err(message) => Visit::Failed(CascadeError::Parse { path: canonical, message }),
        Ok(config) => {
            let ghost before = pair_views(names@);
            names.push((canonical.clone(), config.name));
            assert(pair_views(names@) =~= before.push((canonical@, pair_views(names@).last().1)));
            assert forall|i: int, j: int|
                0 <= i < pair_views(names@).len() && 0 <= j < pair_views(names@).len() && i != j
                    implies (#[trigger] pair_views(names@)[i]).0 != (
            #[trigger] pair_views(names@)[j]).0 by {
                if i < before.len() && j < before.len() {
                    assert(pair_views(names@)[i] == before[i]);
                    assert(pair_views(names@)[j] == before[j]);
                } else if i < before.len() {
                    assert(pair_views(names@)[i] == before[i]);
                } else {
                    assert(pair_views(names@)[j] == before[j]);
                }
            }
            let ghost cv = config_view(config);
            let frame = Frame { path: canonical, mounts: config.mounts, next_mount: 0, loaded: Vec::new() };
            proof {
                assert(frame_view(frame) =~= FrameState { path: canonical@, mounts: cv.1, next: 0, loaded: Seq::empty() });
            }
            frames.push(frame);
            assert(frames_view(frames@) =~= fv.push(frame_view(frame)));
            Visit::Entered
        },
    }
}

/// The cascade a finished walk's bookkeeping describes.
fn finish(root: String, names: &Vec<(String, String)>, pins: &Vec<(String, String)>) -> (c: Cascade)
    requires
        names@.len() > 0,
        names@[0].0@ == root@,
        keys_distinct(pair_views(pins@)),
    ensures
        cascade_view(c) == cascade_of(pair_views(names@), pair_views(pins@)),
{
    let branch = pin_lookup(pins, root.as_str());
    let active = ResolvedProject { path: root, name: names[0].1.clone(), branch };
    let mut peers: Vec<ResolvedProject> = Vec::new();
    let mut i: usize = 1;
    while i < names.len()
        invariant
            1 <= i <= names@.len(),
            keys_distinct(pair_views(pins@)),
            peers@.len() == i - 1,
            forall|k: int|
                0 <= k < i - 1 ==> project_view(#[trigger] peers@[k]) == cascade_of(
                    pair_views(names@),
                    pair_views(pins@),
                ).1[k],
        decreases names.len() - i,
    {
        let branch = pin_lookup(pins, names[i].0.as_str());
        peers.push(ResolvedProject { path: names[i].0.clone(), name: names[i].1.clone(), branch });
        i = i + 1;
    }
    let c = Cascade { active, peers };
    assert(cascade_view(c).1 =~= cascade_of(pair_views(names@), pair_views(pins@)).1);
    c
}

/// A finished cascade honours what an earlier point of its walk had
/// recorded: the first project visited is the active one, every project
/// appears once and the active one is no peer, projects already visited keep
/// their order, and a branch already pinned is the branch its project reads.
pub open spec fn honours(
    c: Cascade,
    v: Seq<(Seq<char>, Seq<char>)>,
    p: Seq<(Seq<char>, Seq<char>)>,
) -> bool {
    let cv = cascade_view(c);
    &&& (v.len() > 0 ==> cv.0.0 == v[0].0 && cv.0.1 == v[0].1)
    &&& cv.1.len() + 1 >= v.len()
    &&& forall|i: int, j: int| 0 <= i < j < cv.1.len() ==> (#[trigger] cv.1[i]).0 != (#[trigger] cv.1[j]).0
    &&& forall|i: int| 0 <= i < cv.1.len() ==> (#[trigger] cv.1[i]).0 != cv.0.0
    &&& forall|i: int| 0 < i < v.len() ==> (#[trigger] cv.1[i - 1]).0 == v[i].0 && cv.1[i - 1].1 == v[i].1
    &&& forall|i: int| 0 <= i < cv.1.len() && has_key(p, (#[trigger] cv.1[i]).0) ==> cv.1[i].2 == pin_of(p, cv.1[i].0)
}

proof fn lemma_pending_push(fs: Seq<Frame>, f: Frame)
    ensures
        pending(fs.push(f)) == pending(fs) + f.loaded@.len(),
{
    assert(fs.push(f).drop_last() =~= fs);
}

fn advance(
    active: String,
    root: String,
    visited: Vec<(String, String)>,
    pins: Vec<(String, String)>,
    pending_frames: Vec<Frame>,
) -> (step: Step)
    requires
        visited@.len() > 0,
        visited@[0].0@ == root@,
        keys_distinct(pair_views(visited@)),
        keys_distinct(pair_views(pins@)),
        rooted(root@, pair_views(pins@), frames_view(pending_frames@)),
    ensures
        step matches Step::Done(Ok(c)) ==> c.active.branch@ == DEFAULT_BRANCH@,
        match step {
            Step::Load { walk, path } => pair_views(visited@).is_prefix_of(walk.visited())
                && walk.pinned() == pair_views(pins@) && walk.root_path() == Some(root@)
                && keys_distinct(walk.visited()) && keys_distinct(walk.pinned()) && walk.asked()
                == path@,
            Step::Done(Ok(c)) => honours(c, pair_views(visited@), pair_views(pins@)),
            Step::Done(Err(e)) => e is Cycle || e is Parse,
        },
        step_is(step, advance_state(active@, root@, pair_views(visited@), pair_views(pins@), frames_view(pending_frames@))),
{
    let ghost names0 = pair_views(visited@);
    let ghost f0 = frames_view(pending_frames@);
    let ghost target = advance_state(active@, root@, pair_views(visited@), pair_views(pins@), f0);
    proof {
        lemma_finished_on_default(active@, root@, pair_views(visited@), pair_views(pins@), f0);
    }
    let mut names = visited;
    let mut frames = pending_frames;
    loop
        invariant
            advance_state(active@, root@, pair_views(names@), pair_views(pins@), frames_view(frames@)) == target,
            target == advance_state(active@, root@, names0, pair_views(pins@), f0),
            target matches Stepped::Finished(a, _) ==> a.2 == DEFAULT_BRANCH@,
            rooted(root@, pair_views(pins@), frames_view(frames@)),
            f0 == frames_view(pending_frames@),
            names@.len() > 0,
            names@[0].0@ == root@,
            keys_distinct(pair_views(names@)),
            keys_distinct(pair_views(pins@)),
            names0.len() > 0,
            names0 == pair_views(visited@),
            names0.is_prefix_of(pair_views(names@)),
        decreases frames@.len() + 2 * pending(frames@),
    {
        if frames.len() == 0 {
            let c = finish(root, &names, &pins);
            proof {
                let v = pair_views(names@);
                let p = pair_views(pins@);
                cascade_laws(v, p, names0, p);
                assert(v[0] == names0[0]);
                assert forall|i: int| 0 <= i < cascade_view(c).1.len() && has_key(p, (#[trigger] cascade_view(c).1[i]).0)
                    implies cascade_view(c).1[i].2 == pin_of(p, cascade_view(c).1[i].0) by {
                    assert(cascade_view(c).1[i] == cascade_of(v, p).1[i]);
                }
                assert(honours(c, names0, p));
            }
            assert(frames_view(frames@).len() == 0);
            assert(advance_state(active@, root@, pair_views(names@), pair_views(pins@), frames_view(frames@))
                == Stepped::Finished(cascade_of(pair_views(names@), pair_views(pins@)).0, cascade_of(pair_views(names@), pair_views(pins@)).1));
            return Step::Done(Ok(c));
        }
        let ghost before = frames@;
        let ghost fv = frames_view(before);
        let mut top = frames.pop().unwrap();
        proof {
            assert(before == frames@.push(top));
            lemma_pending_push(frames@, top);
            assert(frames_view(frames@) =~= fv.drop_last());
            assert(frame_view(top) == fv.last());
        }
        let ghost nv = pair_views(names@);
        let ghost pv = pair_views(pins@);
        if top.next_mount < top.mounts.len() {
            let asked = join_path(top.path.as_str(), top.mounts[top.next_mount].path.as_str());
            assert(fv.last().mounts[fv.last().next].0 == top.mounts@[top.next_mount as int].path@);
            assert(advance_state(active@, root@, nv, pv, fv) == Stepped::Ask(
                WalkState { active: active@, root: Some(root@), names: nv, pins: pv, frames: fv },
                asked@,
            ));
            frames.push(top);
            let walk = Walk { active, root: Some(root), names, pins, frames };
            assert(walk.visited() == pair_views(walk.names@));
            assert(walk.asked() == asked@);
            assert(names0.is_prefix_of(walk.visited()));
            assert(frames_view(walk.frames@) =~= fv);
            assert(walk.state() =~= WalkState {
                active: active@,
                root: Some(root@),
                names: pair_views(names@),
                pins: pair_views(pins@),
                frames: fv,
            });
            return Step::Load { walk, path: asked };
        }
        if top.loaded.len() > 0 {
            let ghost top_view = frame_view(top);
            let (child, config) = top.loaded.remove(0);
            proof {
                lemma_pending_push(frames@, top);
                assert(frame_view(top) =~= FrameState { loaded: top_view.loaded.drop_first(), ..top_view });
                assert(child@ == top_view.loaded[0].0);
                assert(read_view(config) == top_view.loaded[0].1);
            }
            frames.push(top);
            assert(frames_view(frames@) =~= fv.drop_last().push(frame_view(top)));
            proof {
                lemma_rooted_visit(root@, pair_views(pins@), fv);
            }
            let ghost mid_frames = frames@;
            let ghost mid_names = pair_views(names@);
            let ghost child_view = child@;
            match visit(&mut names, &mut frames, child, config) {
                Visit::Failed(e) => {
                    return Step::Done(Err(e));
                },
                Visit::Entered => {
                    proof {
                        assert(child_view != root@);
                        let f = frames_view(frames@).last();
                        assert(frames_view(frames@) == frames_view(mid_frames).push(f));
                        assert(rooted(root@, pair_views(pins@), frames_view(mid_frames).push(f)));
                        assert(frames@ =~= frames@.drop_last().push(frames@.last()));
                        assert(frames@ == mid_frames.push(frames@.last()));
                        lemma_pending_push(mid_frames, frames@.last());
                        assert(pair_views(names@)[0] == mid_names[0]);
                        assert(names0.is_prefix_of(pair_views(names@))) by {
                            assert forall|i: int| 0 <= i < names0.len() implies names0[i]
                                == pair_views(names@)[i] by {
                                assert(pair_views(names@)[i] == mid_names[i]);
                            }
                        }
                    }
                },
                Visit::Seen => {
                    assert(child_view != root@);
                },
            }
        } else {
            proof {
                lemma_rooted_pop(root@, pair_views(pins@), fv);
            }
        }
    }
}

impl Walk {
    /// Resumes the walk with what loading the path it asked for found.
    pub fn resume(self, loaded: Loaded) -> (step: Step)
        ensures
            match step {
                Step::Load { walk, path } => self.visited().is_prefix_of(walk.visited())
                    && self.pinned().is_prefix_of(walk.pinned()) && (self.root_path() is Some
                    ==> walk.root_path() == self.root_path()) && keys_distinct(walk.visited())
                    && keys_distinct(walk.pinned()) && walk.asked() == path@,
                Step::Done(Ok(c)) => honours(c, self.visited(), self.pinned()),
                Step::Done(Err(e)) => (e is Load && loaded is Failed) || e is Cycle || e is Parse,
            },
            // A load that fails is the error of the path the walk asked for.
            loaded matches Loaded::Failed { message } ==> step matches Step::Done(
                Err(CascadeError::Load { path, message: m }),
            ) && path@ == self.asked() && m@ == message@,
            // A mount that loads pins its project to the branch it declares,
            // unless an earlier declaration pinned it first.
            self.root_path() is Some ==> (loaded matches Loaded::Found { canonical, config: _ } ==> match step {
                Step::Load { walk, path: _ } => walk.pinned() == pinned_after(
                    self.pinned(),
                    canonical@,
                    self.asked_branch(),
                ),
                Step::Done(Ok(c)) => honours(
                    c,
                    self.visited(),
                    pinned_after(self.pinned(), canonical@, self.asked_branch()),
                ),
                Step::Done(Err(_)) => true,
            }),
            // The active project's own config must read.
            self.root_path() is None ==> (loaded matches Loaded::Found {
                canonical,
                config: Err(reason),
            } ==> step matches Step::Done(Err(CascadeError::Parse { path, message }))
                && path@ == canonical@ && message@ == reason@),
            // Exactly: the step is the one the walk's rules give.
            step_is(step, resume_state(self.state(), loaded_view(loaded))),
            // A finished cascade leaves the active project on the default
            // branch: nothing can pin it without being a cycle.
            step matches Step::Done(Ok(c)) ==> c.active.branch@ == DEFAULT_BRANCH@,
    {
        proof {
            use_type_invariant(&self);
        }
        let ghost v0 = self.visited();
        let ghost p0 = self.pinned();
        let ghost w = self.state();
        let ghost got = loaded_view(loaded);
        let Walk { active, root, names, pins, frames } = self;
        let mut names = names;
        let mut pins = pins;
        let mut frames = frames;
        match root {
            None => match loaded {
                Loaded::Failed { message } => Step::Done(
                    Err(CascadeError::Load { path: active, message }),
                ),
                Loaded::Found { canonical, config } => {
                    let root = canonical.clone();
                    match visit(&mut names, &mut frames, canonical, config) {
                        Visit::Failed(e) => Step::Done(Err(e)),
                        Visit::Seen => Step::Done(
                            Err(CascadeError::Cycle { path: root }),
                        ),
                        Visit::Entered => {
                            assert(pair_views(names@)[0].0 == root@);
                            proof {
                                assert(v0 =~= Seq::empty());
                                assert(pair_views(pins@).subrange(0, p0.len() as int) =~= p0);
                                assert(w.names =~= Seq::empty());
                                assert(w.frames =~= Seq::empty());
                                assert(pair_views(names@) =~= seq![(root@, pair_views(names@)[0].1)]);
                            }
                            advance(active, root, names, pins, frames)
                        },
                    }
                },
            },
            Some(root) => {
                let ghost before = frames@;
                let mut top = frames.pop().unwrap();
                assert(top == before.last());
                assert(frame_view(top) == w.frames.last());
                assert(frames_view(frames@) =~= w.frames.drop_last());
                assert(top.next_mount < top.mounts@.len());
                let target = join_path(top.path.as_str(), top.mounts[top.next_mount].path.as_str());
                match loaded {
                    Loaded::Failed { message } => Step::Done(
                        Err(CascadeError::Load { path: target, message }),
                    ),
                    Loaded::Found { canonical, config } => {
                        let ghost pb0 = pair_views(pins@);
                        let pinned = key_index(&pins, canonical.as_str());
                        if let Some(i) = pinned {
                            assert(pb0[i as int].0 == canonical@);
                            assert(has_key(pb0, canonical@));
                        }
                        if pinned.is_none() {
                            let branch = top.mounts[top.next_mount].branch.clone();
                            let ghost pb = pair_views(pins@);
                            pins.push((canonical.clone(), branch));
                            proof {
                                assert(pair_views(pins@) =~= pinned_after(pb0, canonical@, self.asked_branch()));
                                assert(pair_views(pins@) =~= pb.push(pair_views(pins@).last()));
                                assert forall|i: int, j: int|
                                    0 <= i < pair_views(pins@).len() && 0 <= j < pair_views(pins@).len() && i != j
                                        implies (#[trigger] pair_views(pins@)[i]).0 != (
                                #[trigger] pair_views(pins@)[j]).0 by {
                                    if i < pb.len() {
                                        assert(pair_views(pins@)[i] == pb[i]);
                                    }
                                    if j < pb.len() {
                                        assert(pair_views(pins@)[j] == pb[j]);
                                    }
                                }
                            }
                        }
                        proof {
                            assert(pair_views(pins@).subrange(0, p0.len() as int) =~= p0);
                            assert(pair_views(pins@) =~= pinned_after(pb0, canonical@, self.asked_branch()));
                        }
                        let ghost top_view = frame_view(top);
                        let ghost item = (canonical@, read_view(config));
                        top.loaded.push((canonical, config));
                        let declared = top.mounts.len();
                        assert(top.next_mount < declared);
                        top.next_mount = top.next_mount + 1;
                        proof {
                            assert(frame_view(top) =~= FrameState {
                                next: top_view.next + 1,
                                loaded: top_view.loaded.push(item),
                                ..top_view
                            });
                        }
                        frames.push(top);
                        assert(frames_view(frames@) =~= w.frames.drop_last().push(frame_view(top)));
                        proof {
                            lemma_rooted_load(root@, pb0, w.frames, item.0, item.1, self.asked_branch());
                        }
                        advance(active, root, names, pins, frames)
                    },
                }
            },
        }
    }
}

impl CascadeError {
    /// The error as a sentence.
    pub fn describe(&self) -> (text: String)
        ensures
            text@ == match self {
                CascadeError::Load { path, message } => "cannot load "@ + path@ + ": "@ + message@,
                CascadeError::Parse { path, message } => "cannot parse "@ + path@ + ": "@ + message@,
                CascadeError::Cycle { path } => "mount cycle through "@ + path@,
                CascadeError::MissingRequired { name } => "the "@ + name@
                    + " project is missing from the mounts cascade \u{2014} declare it in .ol/project.toml"@,
            },
    {
        let mut out: Vec<char> = Vec::new();
        match self {
            CascadeError::Load { path, message } => {
                push_str(&mut out, "cannot load ");
                push_str(&mut out, path.as_str());
                push_str(&mut out, ": ");
                push_str(&mut out, message.as_str());
            },
            CascadeError::Parse { path, message } => {
                push_str(&mut out, "cannot parse ");
                push_str(&mut out, path.as_str());
                push_str(&mut out, ": ");
                push_str(&mut out, message.as_str());
            },
            CascadeError::Cycle { path } => {
                push_str(&mut out, "mount cycle through ");
                push_str(&mut out, path.as_str());
            },
            CascadeError::MissingRequired { name } => {
                push_str(&mut out, "the ");
                push_str(&mut out, name.as_str());
                push_str(
                    &mut out,
                    " project is missing from the mounts cascade \u{2014} declare it in .ol/project.toml",
                );
            },
        }
        string_of(&out)
    }
}

} // verus!
