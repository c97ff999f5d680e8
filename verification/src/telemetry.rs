//! The telemetry lane's shape in the field: each stage of a finished open
//! path is one event chunk, instance on its category chunk and relates on
//! its process with its place in the path as seq. Categories grow lazily as
//! instances of one registry root. What already exists is the caller's to
//! read; the ids, the categories and the events are decided here.

use vstd::prelude::*;
use crate::order::{sort_texts, sorted_texts, views};
use crate::protocol::same_text;
use crate::text::{decimal, push_decimal, push_str, string_of};

verus! {

/// The registry root every category is an instance of.
pub const ROOT: &'static str = "timing-event";

/// A category's chunk id: `timing-` and the category.
pub open spec fn category_text(category: Seq<char>) -> Seq<char> {
    "timing-"@ + category
}

/// The id of a path's `index`th event: the process, `-t` and the index.
pub open spec fn event_text(process: Seq<char>, index: nat) -> Seq<char> {
    process + "-t"@ + decimal(index)
}

/// The first `n` texts with repeats dropped, each where it first occurs.
pub open spec fn distinct_texts(s: Seq<Seq<char>>, n: int) -> Seq<Seq<char>>
    decreases n,
{
    if n <= 0 {
        Seq::empty()
    } else {
        let rest = distinct_texts(s, n - 1);
        if rest.contains(s[n - 1]) {
            rest
        } else {
            rest.push(s[n - 1])
        }
    }
}

/// A category's chunk id.
pub fn category_id(category: &str) -> (id: String)
    ensures
        id@ == category_text(category@),
{
    let mut out: Vec<char> = Vec::new();
    push_str(&mut out, "timing-");
    push_str(&mut out, category);
    string_of(&out)
}

/// The categories a path's stages fall in: each stage name once, in sorted
/// order.
pub fn categories(stages: &Vec<String>) -> (cs: Vec<String>)
    ensures
        views(cs@) == sorted_texts(distinct_texts(views(stages@), stages@.len() as int)),
{
    let mut seen: Vec<String> = Vec::new();
    let mut i: usize = 0;
    while i < stages.len()
        invariant
            i <= stages@.len(),
            views(seen@) == distinct_texts(views(stages@), i as int),
        decreases stages.len() - i,
    {
        let ghost before = views(seen@);
        let mut found = false;
        let mut j: usize = 0;
        while j < seen.len()
            invariant
                j <= seen@.len(),
                i < stages@.len(),
                before == views(seen@),
                found == exists|k: int| 0 <= k < j && (#[trigger] views(seen@)[k]) == stages@[i as int]@,
            decreases seen.len() - j,
        {
            if same_text(seen[j].as_str(), stages[i].as_str()) {
                assert(views(seen@)[j as int] == stages@[i as int]@);
                found = true;
            }
            j = j + 1;
        }
        assert(views(stages@)[i as int] == stages@[i as int]@);
        if !found {
            seen.push(stages[i].clone());
            assert(views(seen@) =~= before.push(stages@[i as int]@));
        }
        i = i + 1;
    }
    sort_texts(&seen)
}

/// One event of a finished path: its id, its category's id, and its seq on
/// the process (its place in the path, from one).
pub struct EventPlan {
    pub id: String,
    pub category: String,
    pub seq: i64,
}

/// The events of a path of `process` whose stages are named as given, in
/// stage order.
pub fn events(process: &str, stages: &Vec<String>) -> (es: Vec<EventPlan>)
    requires
        stages@.len() < i64::MAX,
    ensures
        es@.len() == stages@.len(),
        forall|i: int|
            0 <= i < es@.len() ==> (#[trigger] es@[i]).id@ == event_text(process@, i as nat)
                && es@[i].category@ == category_text(stages@[i]@) && es@[i].seq == i + 1,
{
    let mut es: Vec<EventPlan> = Vec::new();
    let mut i: usize = 0;
    while i < stages.len()
        invariant
            i <= stages@.len(),
            stages@.len() < i64::MAX,
            es@.len() == i,
            forall|k: int|
                0 <= k < i ==> (#[trigger] es@[k]).id@ == event_text(process@, k as nat)
                    && es@[k].category@ == category_text(stages@[k]@) && es@[k].seq == k + 1,
        decreases stages.len() - i,
    {
        let mut id: Vec<char> = Vec::new();
        push_str(&mut id, process);
        push_str(&mut id, "-t");
        push_decimal(&mut id, i as u64);
        let seq = (i as i64) + 1;
        es.push(EventPlan { id: string_of(&id), category: category_id(stages[i].as_str()), seq });
        i = i + 1;
    }
    es
}

} // verus!
