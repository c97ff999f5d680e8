//! A program's module graph, crawled from its entry the way a webview pulls
//! it: the caller compiles each file handed out and reports the files its
//! imports resolve to; the crawl decides what comes next, and hands out no
//! file twice once it has been compiled.

use vstd::prelude::*;
use crate::order::views;
use crate::protocol::same_text;

verus! {

/// The queue left and the file handed out when the next file is taken: files
/// are taken from the end of the queue, and those already compiled are passed
/// over.
pub open spec fn taken(queue: Seq<Seq<char>>, seen: Seq<Seq<char>>) -> (Seq<Seq<char>>, Option<Seq<char>>)
    decreases queue.len(),
{
    if queue.len() == 0 {
        (queue, None)
    } else if seen.contains(queue.last()) {
        taken(queue.drop_last(), seen)
    } else {
        (queue.drop_last(), Some(queue.last()))
    }
}

/// No file occurs twice.
pub open spec fn distinct(s: Seq<Seq<char>>) -> bool {
    forall|i: int, j: int| 0 <= i < s.len() && 0 <= j < s.len() && i != j ==> s[i] != s[j]
}

/// A crawl in progress: the files still to take, the files compiled so far
/// in the order they were, and the file handed out and not yet reported.
pub struct Crawl {
    queue: Vec<String>,
    seen: Vec<String>,
    current: Option<String>,
}

impl Crawl {
    #[verifier::type_invariant]
    spec fn consistent(self) -> bool {
        &&& distinct(views(self.seen@))
        &&& (self.current matches Some(f) ==> !views(self.seen@).contains(f@))
    }

    /// The files still to take.
    pub closed spec fn pending(self) -> Seq<Seq<char>> {
        views(self.queue@)
    }

    /// The files compiled so far, in order.
    pub closed spec fn compiled(self) -> Seq<Seq<char>> {
        views(self.seen@)
    }

    /// The file handed out and not yet reported, if any.
    pub closed spec fn out(self) -> Option<Seq<char>> {
        match self.current {
            Some(f) => Some(f@),
            None => None,
        }
    }

    /// A crawl that starts at `entry`.
    pub fn new(entry: &str) -> (c: Crawl)
        ensures
            c.pending() == seq![entry@],
            c.compiled() == Seq::<Seq<char>>::empty(),
            c.out() is None,
    {
        let mut queue: Vec<String> = Vec::new();
        queue.push(entry.to_owned());
        let c = Crawl { queue, seen: Vec::new(), current: None };
        assert(c.pending() =~= seq![entry@]);
        assert(c.compiled() =~= Seq::<Seq<char>>::empty());
        c
    }

    /// Whether `file` was compiled already.
    fn was_compiled(&self, file: &str) -> (r: bool)
        ensures
            r == self.compiled().contains(file@),
    {
        let mut i: usize = 0;
        while i < self.seen.len()
            invariant
                i <= self.seen@.len(),
                forall|j: int| 0 <= j < i ==> views(self.seen@)[j] != file@,
            decreases self.seen.len() - i,
        {
            if same_text(self.seen[i].as_str(), file) {
                assert(views(self.seen@)[i as int] == file@);
                return true;
            }
            i = i + 1;
        }
        false
    }

    /// The next file to compile: taken from the end of the queue, passing
    /// over files already compiled; `None` when the queue is spent. A file
    /// handed out earlier and not reported is forgotten.
    pub fn next(&mut self) -> (file: Option<String>)
        ensures
            final(self).compiled() == old(self).compiled(),
            final(self).pending() == taken(old(self).pending(), old(self).compiled()).0,
            match file {
                Some(f) => taken(old(self).pending(), old(self).compiled()).1 == Some(f@) && final(self).out()
                    == Some(f@),
                None => taken(old(self).pending(), old(self).compiled()).1 is None && final(self).out() is None,
            },
    {
        proof {
            use_type_invariant(&*self);
        }
        let mut queue: Vec<String> = Vec::new();
        std::mem::swap(&mut queue, &mut self.queue);
        self.current = None;
        loop
            invariant
                distinct(views(self.seen@)),
                self.seen@ == old(self).seen@,
                self.current is None,
                taken(views(queue@), views(self.seen@)) == taken(old(self).pending(), old(self).compiled()),
            decreases queue@.len(),
        {
            proof {
                use_type_invariant(&*self);
            }
            let ghost before = views(queue@);
            match queue.pop() {
                None => {
                    assert(before.len() == 0);
                    self.queue = queue;
                    assert(self.pending() =~= before);
                    return None;
                },
                Some(f) => {
                    assert(views(queue@) =~= before.drop_last());
                    assert(before.last() == f@);
                    if !self.was_compiled(f.as_str()) {
                        self.queue = queue;
                        self.current = Some(f.clone());
                        return Some(f);
                    }
                },
            }
        }
    }

    /// Reports that the file handed out was compiled and which files its
    /// imports resolve to: those are queued in order, and the file counts as
    /// compiled. Nothing happens when no file is out.
    pub fn compiled_with(&mut self, imports: Vec<String>)
        ensures
            match old(self).out() {
                Some(f) => final(self).compiled() == old(self).compiled().push(f) && final(self).pending()
                    == old(self).pending() + views(imports@),
                None => final(self).compiled() == old(self).compiled() && final(self).pending() == old(
                    self,
                ).pending(),
            },
            final(self).out() is None,
    {
        proof {
            use_type_invariant(&*self);
        }
        let mut current: Option<String> = None;
        std::mem::swap(&mut current, &mut self.current);
        match current {
            None => {},
            Some(f) => {
                let mut queue: Vec<String> = Vec::new();
                std::mem::swap(&mut queue, &mut self.queue);
                let ghost q0 = views(queue@);
                let mut i: usize = 0;
                while i < imports.len()
                    invariant
                        i <= imports@.len(),
                        views(queue@) == q0 + views(imports@).take(i as int),
                    decreases imports.len() - i,
                {
                    let ghost before = views(queue@);
                    queue.push(imports[i].clone());
                    assert(views(queue@) =~= before.push(views(imports@)[i as int]));
                    assert(views(imports@).take(i + 1) =~= views(imports@).take(i as int).push(views(imports@)[i as int]));
                    assert(views(queue@) =~= q0 + views(imports@).take(i + 1));
                    i = i + 1;
                }
                assert(views(imports@).take(i as int) =~= views(imports@));
                self.queue = queue;
                let mut seen: Vec<String> = Vec::new();
                std::mem::swap(&mut seen, &mut self.seen);
                let ghost s0 = views(seen@);
                seen.push(f);
                proof {
                    assert(views(seen@) =~= s0.push(views(seen@).last()));
                    assert forall|a: int, b: int| 0 <= a < views(seen@).len() && 0 <= b < views(seen@).len() && a != b
                        implies views(seen@)[a] != views(seen@)[b] by {
                        if a < s0.len() && b < s0.len() {
                            assert(views(seen@)[a] == s0[a] && views(seen@)[b] == s0[b]);
                        } else if a < s0.len() {
                            assert(views(seen@)[a] == s0[a]);
                        } else {
                            assert(views(seen@)[b] == s0[b]);
                        }
                    }
                }
                self.seen = seen;
            },
        }
    }

    /// Reports that the file handed out did not compile: it is dropped, not
    /// counted, and taken again if it is queued again.
    pub fn failed(&mut self)
        ensures
            final(self).compiled() == old(self).compiled(),
            final(self).pending() == old(self).pending(),
            final(self).out() is None,
    {
        proof {
            use_type_invariant(&*self);
        }
        self.current = None;
    }

    /// The files compiled, in the order they were; none twice.
    pub fn finish(self) -> (files: Vec<String>)
        ensures
            views(files@) == self.compiled(),
            distinct(views(files@)),
    {
        proof {
            use_type_invariant(&self);
        }
        self.seen
    }
}

/// A file already compiled is never handed out again: whatever is taken
/// next was not compiled, and it came from the queue.
pub proof fn no_compiled_file_is_handed_out_again(queue: Seq<Seq<char>>, seen: Seq<Seq<char>>)
    ensures
        taken(queue, seen).1 matches Some(f) ==> !seen.contains(f) && queue.contains(f),
        taken(queue, seen).0.len() <= queue.len(),
    decreases queue.len(),
{
    if queue.len() > 0 {
        no_compiled_file_is_handed_out_again(queue.drop_last(), seen);
        if taken(queue, seen).1 is Some {
            let f = taken(queue, seen).1->0;
            if seen.contains(queue.last()) {
                let i = choose|i: int| 0 <= i < queue.drop_last().len() && queue.drop_last()[i] == f;
                assert(queue[i] == f);
            } else {
                assert(queue[queue.len() - 1] == f);
            }
        }
    }
}

} // verus!
