//! The open path of a surface, instrumented: click, run, mount, first paint,
//! each stage stamped with the moment it happened. Two lanes read the same
//! marks: a printing lane, stage by stage as they happen, and a collecting
//! lane, which receives each finished path whole. Either lane alone turns
//! recording on.
//!
//! This is the bookkeeping alone: the clock, the printing and the sink are
//! the caller's, and a stamp is whatever the caller's clock gives (`T`).

use vstd::prelude::*;
use crate::recycle::Pool;
use crate::stub::string_text;

verus! {

/// One process's open path while it is live: the program's name once the
/// caller said it, and every stage in arrival order with its stamp.
pub struct OpenPath<T> {
    pub label: Option<String>,
    pub stages: Vec<(String, T)>,
}

/// A finished open path, as the collecting lane receives it.
pub struct Execution<T> {
    /// The process whose open this was; the path's key.
    pub process: String,
    /// The program's name, when the caller said it.
    pub program: Option<String>,
    /// Every stage in arrival order, with its stamp.
    pub stages: Vec<(String, T)>,
}

/// The stages read as characters.
pub open spec fn stage_views<T>(s: Seq<(String, T)>) -> Seq<(Seq<char>, T)> {
    Seq::new(s.len(), |i: int| (s[i].0@, s[i].1))
}

/// A live path read as plain values: its label and its stages.
pub open spec fn path_view<T>(p: OpenPath<T>) -> (Option<Seq<char>>, Seq<(Seq<char>, T)>) {
    (string_text(p.label), stage_views(p.stages@))
}

/// The live paths after `stage` is marked on `key` at `now`: the path gains
/// the stage, or starts with it.
pub open spec fn marked<T>(
    live: Map<Seq<char>, (Option<Seq<char>>, Seq<(Seq<char>, T)>)>,
    key: Seq<char>,
    stage: Seq<char>,
    now: T,
) -> Map<Seq<char>, (Option<Seq<char>>, Seq<(Seq<char>, T)>)> {
    if live.contains_key(key) {
        live.insert(key, (live[key].0, live[key].1.push((stage, now))))
    } else {
        live.insert(key, (None, seq![(stage, now)]))
    }
}

/// Some stage of the path is named `stage`.
pub open spec fn has_stage<T>(stages: Seq<(Seq<char>, T)>, stage: Seq<char>) -> bool {
    exists|i: int| 0 <= i < stages.len() && (#[trigger] stages[i]).0 == stage
}

/// The live paths after `stage` is marked once on `key`: only a live path
/// that has not reached the stage gains it.
pub open spec fn marked_once<T>(
    live: Map<Seq<char>, (Option<Seq<char>>, Seq<(Seq<char>, T)>)>,
    key: Seq<char>,
    stage: Seq<char>,
    now: T,
) -> Map<Seq<char>, (Option<Seq<char>>, Seq<(Seq<char>, T)>)> {
    if live.contains_key(key) && !has_stage(live[key].1, stage) {
        marked(live, key, stage, now)
    } else {
        live
    }
}

/// The open paths being timed, and which lanes are on.
pub struct Timing<T> {
    print: bool,
    collect: bool,
    paths: Pool<OpenPath<T>>,
}

impl<T> Timing<T> {
    /// Every live path has reached at least one stage: a path starts with
    /// its first mark.
    #[verifier::type_invariant]
    spec fn started(self) -> bool {
        forall|k: Seq<char>| #[trigger] self.paths@.dom().contains(k) ==> self.paths@[k].stages@.len() > 0
    }

    /// Whether the printing lane is on.
    pub closed spec fn printing(self) -> bool {
        self.print
    }

    /// Whether the collecting lane is on.
    pub closed spec fn collecting(self) -> bool {
        self.collect
    }

    /// The live paths, by process.
    pub closed spec fn live(self) -> Map<Seq<char>, (Option<Seq<char>>, Seq<(Seq<char>, T)>)> {
        self.paths@.map_values(|p: OpenPath<T>| path_view(p))
    }

    /// Whether anything is recorded at all.
    pub open spec fn recording(self) -> bool {
        self.printing() || self.collecting()
    }

}

impl<T: Copy> Timing<T> {
    /// No path live; the printing lane as asked, the collecting lane off.
    pub fn new(print: bool) -> (t: Timing<T>)
        ensures
            t.printing() == print,
            !t.collecting(),
            t.live() == Map::<Seq<char>, (Option<Seq<char>>, Seq<(Seq<char>, T)>)>::empty(),
    {
        let t = Timing { print, collect: false, paths: Pool::new() };
        assert(t.live() =~= Map::<Seq<char>, (Option<Seq<char>>, Seq<(Seq<char>, T)>)>::empty());
        t
    }

    /// Turns the collecting lane on: every path finished from here on is
    /// handed over.
    pub fn to_field(&mut self)
        ensures
            final(self).collecting(),
            final(self).printing() == old(self).printing(),
            final(self).live() == old(self).live(),
    {
        proof {
            use_type_invariant(&*self);
        }
        self.collect = true;
    }

    /// Whether either lane is on.
    pub fn enabled(&self) -> (on: bool)
        ensures
            on == self.recording(),
    {
        self.print || self.collect
    }

    /// Names the program behind a live path; silent on a path that is not
    /// live, and when nothing is recorded.
    pub fn label(&mut self, key: &str, program: &str)
        ensures
            final(self).printing() == old(self).printing(),
            final(self).collecting() == old(self).collecting(),
            final(self).live() == (if old(self).recording() && old(self).live().contains_key(key@) {
                old(self).live().insert(key@, (Some(program@), old(self).live()[key@].1))
            } else {
                old(self).live()
            }),
    {
        proof {
            use_type_invariant(&*self);
        }
        if !self.enabled() {
            return;
        }
        let ghost before = self.paths@;
        let mut paths: Pool<OpenPath<T>> = Pool::new();
        std::mem::swap(&mut paths, &mut self.paths);
        match paths.claim(key) {
            Some(path) => {
                let named = OpenPath { label: Some(program.to_owned()), stages: path.stages };
                paths.park(key, named);
                self.paths = paths;
                proof {
                    assert(self.paths@ == before.insert(key@, named));
                    assert(self.live() =~= old(self).live().insert(
                        key@,
                        (Some(program@), old(self).live()[key@].1),
                    ));
                }
            },
            None => {
                self.paths = paths;
                assert(self.live() =~= old(self).live());
            },
        }
    }

    /// Records one stage of one process's open path at `now`: the first mark
    /// for a key starts its path. When the printing lane is on, the answer is
    /// the path's first stamp and the stamp of the stage before this one (both
    /// `now` for a path that this mark started).
    pub fn mark(&mut self, key: &str, stage: &str, now: T) -> (printed: Option<(T, T)>)
        ensures
            final(self).printing() == old(self).printing(),
            final(self).collecting() == old(self).collecting(),
            final(self).live() == (if old(self).recording() {
                marked(old(self).live(), key@, stage@, now)
            } else {
                old(self).live()
            }),
            printed == (if old(self).recording() && old(self).printing() {
                Some(
                    if old(self).live().contains_key(key@) {
                        (old(self).live()[key@].1[0].1, old(self).live()[key@].1.last().1)
                    } else {
                        (now, now)
                    },
                )
            } else {
                None
            }),
    {
        proof {
            use_type_invariant(&*self);
        }
        if !self.enabled() {
            return None;
        }
        let ghost before = self.paths@;
        let mut paths: Pool<OpenPath<T>> = Pool::new();
        std::mem::swap(&mut paths, &mut self.paths);
        let (path, first, previous) = match paths.claim(key) {
            Some(path) => {
                let mut stages = path.stages;
                let first = stages[0].1;
                let previous = stages[stages.len() - 1].1;
                let ghost pushed_from = stages@;
                stages.push((stage.to_owned(), now));
                proof {
                    assert(stage_views(stages@) =~= stage_views(pushed_from).push((stage@, now)));
                }
                (OpenPath { label: path.label, stages }, first, previous)
            },
            None => {
                let mut stages: Vec<(String, T)> = Vec::new();
                stages.push((stage.to_owned(), now));
                proof {
                    assert(stage_views(stages@) =~= seq![(stage@, now)]);
                }
                (OpenPath { label: None, stages }, now, now)
            },
        };
        paths.park(key, path);
        self.paths = paths;
        proof {
            assert(self.paths@ == before.insert(key@, path));
            assert(self.live() =~= marked(old(self).live(), key@, stage@, now));
        }
        if self.print {
            Some((first, previous))
        } else {
            None
        }
    }

    /// Records a stage once per live path: a stage the path already reached
    /// is not marked again, and a stage for a path that is not live (never
    /// started, or already done) is dropped. The answer is as `mark`'s when
    /// the stage is marked, and nothing otherwise.
    pub fn mark_once(&mut self, key: &str, stage: &str, now: T) -> (printed: Option<(T, T)>)
        ensures
            final(self).printing() == old(self).printing(),
            final(self).collecting() == old(self).collecting(),
            final(self).live() == (if old(self).recording() {
                marked_once(old(self).live(), key@, stage@, now)
            } else {
                old(self).live()
            }),
            printed == (if old(self).recording() && old(self).printing() && old(self).live().contains_key(key@)
                && !has_stage(old(self).live()[key@].1, stage@) {
                Some((old(self).live()[key@].1[0].1, old(self).live()[key@].1.last().1))
            } else {
                None
            }),
    {
        proof {
            use_type_invariant(&*self);
        }
        if !self.enabled() {
            return None;
        }
        let ghost before = self.paths@;
        let mut paths: Pool<OpenPath<T>> = Pool::new();
        std::mem::swap(&mut paths, &mut self.paths);
        match paths.claim(key) {
            None => {
                self.paths = paths;
                assert(self.live() =~= old(self).live());
                None
            },
            Some(path) => {
                let ghost views = stage_views(path.stages@);
                let mut i: usize = 0;
                let mut seen = false;
                while i < path.stages.len()
                    invariant
                        i <= path.stages@.len(),
                        views == stage_views(path.stages@),
                        seen == exists|j: int| 0 <= j < i && (#[trigger] views[j]).0 == stage@,
                    decreases path.stages.len() - i,
                {
                    if crate::protocol::same_text(path.stages[i].0.as_str(), stage) {
                        assert(views[i as int].0 == stage@);
                        seen = true;
                    }
                    i = i + 1;
                }
                assert(seen == has_stage(views, stage@));
                if seen {
                    paths.park(key, path);
                    self.paths = paths;
                    proof {
                        assert(self.paths@ =~= before);
                        assert(self.live() =~= old(self).live());
                    }
                    None
                } else {
                    let first = path.stages[0].1;
                    let previous = path.stages[path.stages.len() - 1].1;
                    let mut stages = path.stages;
                    let ghost pushed_from = stages@;
                    stages.push((stage.to_owned(), now));
                    proof {
                        assert(stage_views(stages@) =~= stage_views(pushed_from).push((stage@, now)));
                    }
                    let grown = OpenPath { label: path.label, stages };
                    paths.park(key, grown);
                    self.paths = paths;
                    proof {
                        assert(self.paths@ == before.insert(key@, grown));
                        assert(self.live() =~= marked(old(self).live(), key@, stage@, now));
                    }
                    if self.print {
                        Some((first, previous))
                    } else {
                        None
                    }
                }
            },
        }
    }

    /// Finishes a path: it is forgotten, so a later mark of the same key
    /// starts afresh; when the collecting lane is on, the path is handed over
    /// whole, labelled and keyed by its process.
    pub fn done(&mut self, key: &str) -> (finished: Option<Execution<T>>)
        ensures
            final(self).printing() == old(self).printing(),
            final(self).collecting() == old(self).collecting(),
            final(self).live() == (if old(self).recording() {
                old(self).live().remove(key@)
            } else {
                old(self).live()
            }),
            match finished {
                None => !(old(self).recording() && old(self).collecting() && old(self).live().contains_key(
                    key@,
                ) && old(self).live()[key@].1.len() > 0),
                Some(e) => old(self).collecting() && old(self).live().contains_key(key@) && e.process@
                    == key@ && (string_text(e.program), stage_views(e.stages@)) == old(self).live()[key@]
                    && e.stages@.len() > 0,
            },
    {
        proof {
            use_type_invariant(&*self);
        }
        if !self.enabled() {
            return None;
        }
        let ghost before = self.paths@;
        let mut paths: Pool<OpenPath<T>> = Pool::new();
        std::mem::swap(&mut paths, &mut self.paths);
        match paths.claim(key) {
            None => {
                self.paths = paths;
                assert(self.live() =~= old(self).live().remove(key@));
                None
            },
            Some(path) => {
                self.paths = paths;
                assert(self.live() =~= old(self).live().remove(key@));
                if !self.collect || path.stages.len() == 0 {
                    None
                } else {
                    Some(Execution { process: key.to_owned(), program: path.label, stages: path.stages })
                }
            },
        }
    }
}

/// A stage is marked once on a live path and never off one: marking it again
/// changes nothing, and a path that never started, or is done, gains nothing.
/// A path that is done is no longer live, so finishing it again hands nothing
/// over.
pub proof fn a_stage_marks_once_on_a_live_path<T>(
    live: Map<Seq<char>, (Option<Seq<char>>, Seq<(Seq<char>, T)>)>,
    key: Seq<char>,
    stage: Seq<char>,
    first: T,
    again: T,
)
    ensures
        marked_once(marked_once(live, key, stage, first), key, stage, again) == marked_once(
            live,
            key,
            stage,
            first,
        ),
        !live.contains_key(key) ==> marked_once(live, key, stage, first) == live,
        marked_once(live.remove(key), key, stage, first) == live.remove(key),
        !live.remove(key).contains_key(key),
{
    let once = marked_once(live, key, stage, first);
    if live.contains_key(key) && !has_stage(live[key].1, stage) {
        let grown = live[key].1.push((stage, first));
        assert(once[key].1 == grown);
        assert(grown[grown.len() - 1].0 == stage);
        assert(has_stage(once[key].1, stage));
    }
}

} // verus!
