//! The park/claim policy behind recycled webviews.
//!
//! On unmount a pane is parked under the executable it rendered instead of
//! being dropped; the next mount of the same executable claims it. The pool
//! holds at most one parked view per executable: the freshest parks, and the
//! view it displaces is handed back to the caller, who owns its death.

use vstd::prelude::*;

verus! {

/// Some entry of `s` is keyed `k`.
pub open spec fn has_key<V>(s: Seq<(String, V)>, k: Seq<char>) -> bool {
    exists|i: int| 0 <= i < s.len() && (#[trigger] s[i]).0@ == k
}

/// The index of the entry keyed `k` (meaningful when there is one).
pub open spec fn key_index<V>(s: Seq<(String, V)>, k: Seq<char>) -> int {
    choose|i: int| 0 <= i < s.len() && (#[trigger] s[i]).0@ == k
}

/// No two entries share a key.
pub open spec fn keys_distinct<V>(s: Seq<(String, V)>) -> bool {
    forall|i: int, j: int| 0 <= i < s.len() && 0 <= j < s.len() && i != j ==> (#[trigger] s[i]).0@
        != (#[trigger] s[j]).0@
}

/// The entries read as a map from executable to parked view.
pub open spec fn map_of<V>(s: Seq<(String, V)>) -> Map<Seq<char>, V> {
    Map::new(|k: Seq<char>| has_key(s, k), |k: Seq<char>| s[key_index(s, k)].1)
}

proof fn lemma_key_index<V>(s: Seq<(String, V)>, i: int)
    requires
        keys_distinct(s),
        0 <= i < s.len(),
    ensures
        has_key(s, s[i].0@),
        key_index(s, s[i].0@) == i,
        map_of(s).dom().contains(s[i].0@),
        map_of(s)[s[i].0@] == s[i].1,
{
    assert(has_key(s, s[i].0@));
}

/// Entries with distinct keys: removing one removes its key from the map.
proof fn lemma_remove<V>(s: Seq<(String, V)>, i: int)
    requires
        keys_distinct(s),
        0 <= i < s.len(),
    ensures
        keys_distinct(s.remove(i)),
        map_of(s.remove(i)) =~= map_of(s).remove(s[i].0@),
{
    let t = s.remove(i);
    assert forall|a: int, b: int| 0 <= a < t.len() && 0 <= b < t.len() && a != b implies (
    #[trigger] t[a]).0@ != (#[trigger] t[b]).0@ by {
        let a2 = if a < i { a } else { a + 1 };
        let b2 = if b < i { b } else { b + 1 };
        assert(t[a] == s[a2] && t[b] == s[b2]);
    }
    assert forall|k: Seq<char>| #[trigger] map_of(t).dom().contains(k) == map_of(s).remove(
        s[i].0@,
    ).dom().contains(k) by {
        if has_key(t, k) {
            let j = key_index(t, k);
            let j2 = if j < i { j } else { j + 1 };
            assert(t[j] == s[j2]);
            assert(has_key(s, k));
        }
        if has_key(s, k) && k != s[i].0@ {
            let j = key_index(s, k);
            let j2 = if j < i { j } else { j - 1 };
            assert(t[j2] == s[j]);
            assert(has_key(t, k));
        }
    }
    assert forall|k: Seq<char>| #[trigger] map_of(t).dom().contains(k) implies map_of(t)[k]
        == map_of(s)[k] by {
        let j = key_index(t, k);
        let j2 = if j < i { j } else { j + 1 };
        assert(t[j] == s[j2]);
        lemma_key_index(t, j);
        lemma_key_index(s, j2);
    }
}

/// Entries with distinct keys: pushing one under a fresh key adds it to the map.
proof fn lemma_push<V>(s: Seq<(String, V)>, e: (String, V))
    requires
        keys_distinct(s),
        !has_key(s, e.0@),
    ensures
        keys_distinct(s.push(e)),
        map_of(s.push(e)) =~= map_of(s).insert(e.0@, e.1),
{
    let t = s.push(e);
    assert forall|a: int, b: int| 0 <= a < t.len() && 0 <= b < t.len() && a != b implies (
    #[trigger] t[a]).0@ != (#[trigger] t[b]).0@ by {
        if a < s.len() && b < s.len() {
            assert(t[a] == s[a] && t[b] == s[b]);
        } else if a < s.len() {
            assert(t[a] == s[a]);
        } else {
            assert(t[b] == s[b]);
        }
    }
    assert forall|k: Seq<char>| #[trigger] map_of(t).dom().contains(k) == map_of(s).insert(
        e.0@,
        e.1,
    ).dom().contains(k) by {
        if has_key(t, k) && k != e.0@ {
            let j = key_index(t, k);
            assert(j < s.len());
            assert(t[j] == s[j]);
            assert(has_key(s, k));
        }
        if has_key(s, k) {
            let j = key_index(s, k);
            assert(t[j] == s[j]);
            assert(has_key(t, k));
        }
        if k == e.0@ {
            assert(t[s.len() as int] == e);
            assert(has_key(t, k));
        }
    }
    assert forall|k: Seq<char>| #[trigger] map_of(t).dom().contains(k) implies map_of(t)[k]
        == map_of(s).insert(e.0@, e.1)[k] by {
        let j = key_index(t, k);
        lemma_key_index(t, j);
        if j < s.len() {
            assert(t[j] == s[j]);
            lemma_key_index(s, j);
        } else {
            assert(t[j] == e);
        }
    }
}

/// Parked views, at most one per executable.
pub struct Pool<V> {
    parked: Vec<(String, V)>,
}

impl<V> View for Pool<V> {
    type V = Map<Seq<char>, V>;

    closed spec fn view(&self) -> Map<Seq<char>, V> {
        map_of(self.parked@)
    }
}

impl<V> Pool<V> {
    #[verifier::type_invariant]
    spec fn one_per_executable(self) -> bool {
        keys_distinct(self.parked@)
    }

    /// An empty pool.
    pub fn new() -> (pool: Pool<V>)
        ensures
            pool@ == Map::<Seq<char>, V>::empty(),
    {
        let pool = Pool { parked: Vec::new() };
        assert(pool@ =~= Map::<Seq<char>, V>::empty());
        pool
    }

    /// Where the entry for `executable` stands, if there is one.
    fn find(&self, executable: &str) -> (at: Option<usize>)
        ensures
            match at {
                Some(i) => i < self.parked@.len() && self.parked@[i as int].0@ == executable@,
                None => !has_key(self.parked@, executable@),
            },
    {
        let key = executable.to_owned();
        let mut i: usize = 0;
        while i < self.parked.len()
            invariant
                key@ == executable@,
                i <= self.parked@.len(),
                forall|j: int| 0 <= j < i ==> (#[trigger] self.parked@[j]).0@ != executable@,
            decreases self.parked.len() - i,
        {
            if self.parked[i].0 == key {
                return Some(i);
            }
            i = i + 1;
        }
        None
    }

    /// Parks a view under its executable. The view it displaces, if the slot
    /// was taken, is returned: the caller owns that one's death.
    pub fn park(&mut self, executable: &str, view: V) -> (displaced: Option<V>)
        ensures
            final(self)@ == old(self)@.insert(executable@, view),
            displaced == (if old(self)@.dom().contains(executable@) {
                Some(old(self)@[executable@])
            } else {
                None
            }),
    {
        proof {
            use_type_invariant(&*self);
        }
        let ghost before = self.parked@;
        let found = self.find(executable);
        let mut parked: Vec<(String, V)> = Vec::new();
        std::mem::swap(&mut parked, &mut self.parked);
        match found {
            Some(i) => {
                proof {
                    lemma_key_index(before, i as int);
                    lemma_remove(before, i as int);
                }
                let (key, old_view) = parked.remove(i);
                proof {
                    assert(!has_key(parked@, key@)) by {
                        if has_key(parked@, key@) {
                            assert(!map_of(parked@).dom().contains(key@));
                        }
                    }
                    lemma_push(parked@, (key, view));
                }
                parked.push((key, view));
                self.parked = parked;
                assert(self@ =~= old(self)@.insert(executable@, view));
                Some(old_view)
            },
            None => {
                let key = executable.to_owned();
                proof {
                    lemma_push(before, (key, view));
                }
                parked.push((key, view));
                self.parked = parked;
                None
            },
        }
    }

    /// Claims the view parked for an executable; claiming empties the slot.
    pub fn claim(&mut self, executable: &str) -> (claimed: Option<V>)
        ensures
            final(self)@ == old(self)@.remove(executable@),
            claimed == (if old(self)@.dom().contains(executable@) {
                Some(old(self)@[executable@])
            } else {
                None
            }),
    {
        proof {
            use_type_invariant(&*self);
        }
        let ghost before = self.parked@;
        match self.find(executable) {
            Some(i) => {
                proof {
                    lemma_key_index(before, i as int);
                    lemma_remove(before, i as int);
                }
                let mut parked: Vec<(String, V)> = Vec::new();
                std::mem::swap(&mut parked, &mut self.parked);
                let (_key, view) = parked.remove(i);
                self.parked = parked;
                Some(view)
            },
            None => {
                assert(self@ =~= old(self)@.remove(executable@));
                None
            },
        }
    }

    /// Whether a view already waits under this executable.
    pub fn occupied(&self, executable: &str) -> (waiting: bool)
        ensures
            waiting == self@.dom().contains(executable@),
    {
        match self.find(executable) {
            Some(i) => {
                proof {
                    use_type_invariant(self);
                    lemma_key_index(self.parked@, i as int);
                }
                true
            },
            None => false,
        }
    }

    /// Drops everything parked.
    pub fn clear(&mut self)
        ensures
            final(self)@ == Map::<Seq<char>, V>::empty(),
    {
        self.parked = Vec::new();
        assert(self@ =~= Map::<Seq<char>, V>::empty());
    }
}

/// What a park leaves is what the next claim of the same executable takes,
/// and the claim leaves that executable's slot empty; another executable's
/// slot is untouched by either.
pub proof fn parked_views_are_claimed_once<V>(
    pool: Map<Seq<char>, V>,
    executable: Seq<char>,
    other: Seq<char>,
    view: V,
)
    requires
        other != executable,
    ensures
        pool.insert(executable, view).dom().contains(executable),
        pool.insert(executable, view)[executable] == view,
        !pool.insert(executable, view).remove(executable).dom().contains(executable),
        pool.insert(executable, view).dom().contains(other) == pool.dom().contains(other),
        pool.insert(executable, view).remove(other).dom().contains(executable),
{
}

/// Parking over a taken slot hands back the view that was there and keeps
/// only the fresher one.
pub proof fn the_freshest_view_parks<V>(
    pool: Map<Seq<char>, V>,
    executable: Seq<char>,
    older: V,
    fresher: V,
)
    ensures
        pool.insert(executable, older).dom().contains(executable),
        pool.insert(executable, older)[executable] == older,
        pool.insert(executable, older).insert(executable, fresher) == pool.insert(
            executable,
            fresher,
        ),
{
    assert(pool.insert(executable, older).insert(executable, fresher) =~= pool.insert(
        executable,
        fresher,
    ));
}

} // verus!
