//! Host settings grown to the build's defaults: a key the build grew arrives
//! with its default value, and a key the settings already carry is never
//! touched, whatever its value. The settings are read here by their keys.

use vstd::prelude::*;
use crate::order::views;
use crate::protocol::same_text;

verus! {

/// The settings key naming the programs that get a warm pane before their
/// first launch.
pub const PREWARM_KEY: &'static str = "prewarm";

/// The settings key that turns on committing each surface open's timings.
pub const TIMINGS_KEY: &'static str = "timings";

/// The positions, among the first `n` defaults, of those whose key the
/// settings do not carry, in order.
pub open spec fn absent(present: Seq<Seq<char>>, defaults: Seq<Seq<char>>, n: int) -> Seq<int>
    decreases n,
{
    if n <= 0 {
        Seq::empty()
    } else {
        let rest = absent(present, defaults, n - 1);
        if present.contains(defaults[n - 1]) {
            rest
        } else {
            rest.push(n - 1)
        }
    }
}

/// The keys at the given positions of the defaults.
pub open spec fn keys_at(defaults: Seq<Seq<char>>, ks: Seq<int>) -> Seq<Seq<char>> {
    Seq::new(ks.len(), |i: int| defaults[ks[i]])
}

/// Whether `key` is among the keys.
fn carries(keys: &Vec<String>, key: &str) -> (r: bool)
    ensures
        r == views(keys@).contains(key@),
{
    let mut i: usize = 0;
    while i < keys.len()
        invariant
            i <= keys@.len(),
            forall|j: int| 0 <= j < i ==> views(keys@)[j] != key@,
        decreases keys.len() - i,
    {
        if same_text(keys[i].as_str(), key) {
            assert(views(keys@)[i as int] == key@);
            return true;
        }
        i = i + 1;
    }
    false
}

/// Which defaults the settings lack: the positions of the default keys the
/// settings do not carry, in the defaults' order; `None` when nothing is
/// missing, so nothing needs writing.
pub fn merged_settings(present: &Vec<String>, defaults: &Vec<String>) -> (grown: Option<Vec<usize>>)
    ensures
        match grown {
            None => absent(views(present@), views(defaults@), defaults@.len() as int).len() == 0,
            Some(ks) => ks@.len() > 0 && Seq::new(ks@.len(), |i: int| ks@[i] as int) == absent(
                views(present@),
                views(defaults@),
                defaults@.len() as int,
            ),
        },
{
    let mut ks: Vec<usize> = Vec::new();
    let mut i: usize = 0;
    while i < defaults.len()
        invariant
            i <= defaults@.len(),
            Seq::new(ks@.len(), |j: int| ks@[j] as int) == absent(views(present@), views(defaults@), i as int),
        decreases defaults.len() - i,
    {
        let ghost before = ks@;
        if !carries(present, defaults[i].as_str()) {
            ks.push(i);
            assert(Seq::new(ks@.len(), |j: int| ks@[j] as int) =~= Seq::new(before.len(), |j: int| before[j] as int).push(i as int));
        } else {
            assert(views(defaults@)[i as int] == defaults@[i as int]@);
        }
        i = i + 1;
    }
    if ks.len() == 0 {
        None
    } else {
        Some(ks)
    }
}

proof fn lemma_absent_holds(present: Seq<Seq<char>>, defaults: Seq<Seq<char>>, n: int, k: int)
    requires
        0 <= k < n <= defaults.len(),
        !present.contains(defaults[k]),
    ensures
        absent(present, defaults, n).contains(k),
    decreases n,
{
    if k < n - 1 {
        lemma_absent_holds(present, defaults, n - 1, k);
        let rest = absent(present, defaults, n - 1);
        let i = choose|i: int| 0 <= i < rest.len() && rest[i] == k;
        if !present.contains(defaults[n - 1]) {
            assert(rest.push(n - 1)[i] == k);
        }
    } else {
        let rest = absent(present, defaults, n - 1);
        assert(rest.push(n - 1)[rest.len() as int] == k);
    }
}

proof fn lemma_absent_in_range(present: Seq<Seq<char>>, defaults: Seq<Seq<char>>, n: int)
    requires
        n <= defaults.len(),
    ensures
        forall|i: int| 0 <= i < absent(present, defaults, n).len() ==> 0 <= #[trigger] absent(present, defaults, n)[i] < n,
    decreases n,
{
    if n > 0 {
        lemma_absent_in_range(present, defaults, n - 1);
        let rest = absent(present, defaults, n - 1);
        assert forall|i: int| 0 <= i < absent(present, defaults, n).len() implies 0
            <= #[trigger] absent(present, defaults, n)[i] < n by {
            if i < rest.len() {
                assert(absent(present, defaults, n)[i] == rest[i]);
            }
        }
    }
}

/// Growing settings is done once: after the absent defaults are added, no
/// default is absent any more, and every key the settings carried is still
/// carried.
pub proof fn settings_grow_once(present: Seq<Seq<char>>, defaults: Seq<Seq<char>>)
    ensures
        ({
            let grown = present + keys_at(defaults, absent(present, defaults, defaults.len() as int));
            &&& absent(grown, defaults, defaults.len() as int).len() == 0
            &&& forall|t: Seq<char>| present.contains(t) ==> grown.contains(t)
        }),
{
    let added = absent(present, defaults, defaults.len() as int);
    let grown = present + keys_at(defaults, added);
    lemma_absent_in_range(present, defaults, defaults.len() as int);
    assert forall|k: int| 0 <= k < defaults.len() implies grown.contains(#[trigger] defaults[k]) by {
        if present.contains(defaults[k]) {
            let i = choose|i: int| 0 <= i < present.len() && present[i] == defaults[k];
            assert(grown[i] == defaults[k]);
        } else {
            lemma_absent_holds(present, defaults, defaults.len() as int, k);
            let i = choose|i: int| 0 <= i < added.len() && added[i] == k;
            assert(grown[present.len() + i] == defaults[k]);
        }
    }
    lemma_none_absent(grown, defaults, defaults.len() as int);
    assert forall|t: Seq<char>| present.contains(t) implies grown.contains(t) by {
        let i = choose|i: int| 0 <= i < present.len() && present[i] == t;
        assert(grown[i] == t);
    }
}

proof fn lemma_none_absent(grown: Seq<Seq<char>>, defaults: Seq<Seq<char>>, n: int)
    requires
        n <= defaults.len(),
        forall|k: int| 0 <= k < defaults.len() ==> grown.contains(#[trigger] defaults[k]),
    ensures
        absent(grown, defaults, n).len() == 0,
    decreases n,
{
    if n > 0 {
        lemma_none_absent(grown, defaults, n - 1);
        assert(grown.contains(defaults[n - 1]));
    }
}

} // verus!
