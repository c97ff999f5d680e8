//! The fixture stand-in for the engine's reads: which chunks a scope query
//! selects from fixture data, how they are counted, ordered and windowed.
//! Everything is a read of one snapshot on one branch; boundaries are the
//! engine's work, so every read is in-boundary.

use vstd::prelude::*;
use vstd::string::*;
use crate::field::{Placement, PlacementType};
use crate::order::{pair_le, pair_le_fn, pair_views, sort_pairs, sorted_pairs, sorted_pairs_sorts, views};
use crate::protocol::{same_text, EngineError, ErrorCode};
use crate::search::{first_where, lemma_first_found, lemma_first_where};
use crate::text::{
    chars_of, contains, contains_exec, decimal, decimal_is_injective, lowercased, push_decimal, push_str,
    string_of, to_lowercase,
};

verus! {

/// The one branch the fixture field stands on.
pub const FIXTURE_BRANCH: &'static str = "main";

/// What a scope read projects.
#[derive(Debug, Clone, PartialEq)]
pub struct Includes {
    pub body: Option<bool>,
}

/// A scope read's options.
#[derive(Debug, Clone, PartialEq)]
pub struct ScopeOpts {
    pub branch: Option<String>,
    pub at: Option<String>,
    pub match_: Option<String>,
    pub exclude: Option<Vec<String>>,
    pub limit: Option<usize>,
    pub offset: Option<usize>,
    pub includes: Option<Includes>,
}

/// A single-chunk read's options.
#[derive(Debug, Clone, PartialEq)]
pub struct ReadOpts {
    pub branch: Option<String>,
    pub at: Option<String>,
    pub includes: Option<Includes>,
}

/// A placement as a read reports it.
#[derive(Debug, Clone, PartialEq)]
pub struct WirePlacement {
    pub scope_id: String,
    pub type_: &'static str,
    pub seq: Option<i64>,
}

/// What the stub reads of a chunk: its id, its name, and every string its
/// body holds (at any depth).
#[derive(Debug, Clone, PartialEq)]
pub struct StubChunk {
    pub id: String,
    pub name: Option<String>,
    pub texts: Vec<String>,
}

/// A scope read's answer: the counts, the selected chunks (as positions in
/// the fixture's chunk list, in the order read), and whether bodies are sent.
#[derive(Debug, Clone, PartialEq)]
pub struct ScopeSelection {
    pub head: String,
    pub total: usize,
    pub in_scope: usize,
    pub in_scope_instance: usize,
    pub in_scope_relates: usize,
    pub chunks: Vec<usize>,
    pub with_body: bool,
}

/// The fixture field: chunks and their placements, at one head.
pub struct FixtureStub {
    pub chunks: Vec<StubChunk>,
    pub placements: Vec<Placement>,
    pub head: String,
}

impl Default for ScopeOpts {
    fn default() -> (opts: ScopeOpts)
        ensures
            opts.branch is None && opts.at is None && opts.match_ is None && opts.exclude is None
                && opts.limit is None && opts.offset is None && opts.includes is None,
    {
        ScopeOpts {
            branch: None,
            at: None,
            match_: None,
            exclude: None,
            limit: None,
            offset: None,
            includes: None,
        }
    }
}

impl Default for ReadOpts {
    fn default() -> (opts: ReadOpts)
        ensures
            opts.branch is None && opts.at is None && opts.includes is None,
    {
        ReadOpts { branch: None, at: None, includes: None }
    }
}

// ---- what a scope read selects -------------------------------------------

/// `id` is placed on `scope`.
pub open spec fn placed_on(ps: Seq<Placement>, scope: Seq<char>, id: Seq<char>) -> bool {
    exists|i: int| 0 <= i < ps.len() && (#[trigger] ps[i]).scope@ == scope && ps[i].chunk@ == id
}

/// `id` is placed on every one of `scopes`.
pub open spec fn on_all(ps: Seq<Placement>, scopes: Seq<String>, id: Seq<char>) -> bool {
    forall|k: int| 0 <= k < scopes.len() ==> placed_on(ps, (#[trigger] scopes[k])@, id)
}

/// `id` is placed on one of `scopes`.
pub open spec fn on_any(ps: Seq<Placement>, scopes: Seq<String>, id: Seq<char>) -> bool {
    exists|k: int| 0 <= k < scopes.len() && placed_on(ps, (#[trigger] scopes[k])@, id)
}

/// The chunks placed on `scope` among the first `n` placements, each once,
/// in the order first placed.
pub open spec fn ids_on(ps: Seq<Placement>, scope: Seq<char>, n: int) -> Seq<Seq<char>>
    decreases n,
{
    if n <= 0 {
        Seq::empty()
    } else {
        let rest = ids_on(ps, scope, n - 1);
        if ps[n - 1].scope@ == scope && !rest.contains(ps[n - 1].chunk@) {
            rest.push(ps[n - 1].chunk@)
        } else {
            rest
        }
    }
}

/// The elements of `s` that satisfy `p`, in order.
pub open spec fn keep(s: Seq<Seq<char>>, p: spec_fn(Seq<char>) -> bool) -> Seq<Seq<char>>
    decreases s.len(),
{
    if s.len() == 0 {
        Seq::empty()
    } else if p(s.last()) {
        keep(s.drop_last(), p).push(s.last())
    } else {
        keep(s.drop_last(), p)
    }
}

/// The chunks a query starts from: with scopes, those placed on all of them;
/// without, the whole field when there is a search term, else nothing.
pub open spec fn base_ids(cs: Seq<StubChunk>, ps: Seq<Placement>, scopes: Seq<String>, searching: bool) -> Seq<Seq<char>> {
    if scopes.len() == 0 {
        if searching {
            Seq::new(cs.len(), |i: int| cs[i].id@)
        } else {
            Seq::empty()
        }
    } else {
        keep(ids_on(ps, scopes[0]@, ps.len() as int), |id: Seq<char>| on_all(ps, scopes, id))
    }
}

/// Chunk `k` has this id.
pub open spec fn chunk_is(cs: Seq<StubChunk>, id: Seq<char>) -> spec_fn(int) -> bool {
    |k: int| cs[k].id@ == id
}

/// The first chunk with this id names or holds the (lower-cased) term.
pub open spec fn chunk_matches(cs: Seq<StubChunk>, id: Seq<char>, term: Seq<char>) -> bool {
    match first_where(cs.len() as int, chunk_is(cs, id)) {
        None => false,
        Some(k) => (cs[k].name matches Some(n) && contains(lowercased(n@), term)) || exists|t: int|
            0 <= t < cs[k].texts@.len() && contains(lowercased((#[trigger] cs[k].texts@[t])@), term),
    }
}

/// The chunks a query keeps: its start, less anything placed on an excluded
/// scope, less anything the search term does not find.
pub open spec fn kept_ids(cs: Seq<StubChunk>, ps: Seq<Placement>, scopes: Seq<String>, opts: ScopeOpts) -> Seq<Seq<char>> {
    let base = base_ids(cs, ps, scopes, opts.match_ is Some);
    let unexcluded = match opts.exclude {
        Some(ex) => keep(base, |id: Seq<char>| !on_any(ps, ex@, id)),
        None => base,
    };
    match opts.match_ {
        Some(term) => keep(unexcluded, |id: Seq<char>| chunk_matches(cs, id, lowercased(term@))),
        None => unexcluded,
    }
}

/// Placement `i` puts `id` on `scope`.
pub open spec fn places(ps: Seq<Placement>, id: Seq<char>, scope: Seq<char>) -> spec_fn(int) -> bool {
    |i: int| ps[i].chunk@ == id && ps[i].scope@ == scope
}

/// The first placement of `id` on `scope`.
pub open spec fn placement_on(ps: Seq<Placement>, id: Seq<char>, scope: Seq<char>) -> Option<Placement> {
    match first_where(ps.len() as int, places(ps, id, scope)) {
        Some(i) => Some(ps[i]),
        None => None,
    }
}

/// What orders a chunk: the seq of its placement on the first scope (last
/// when it has none), then its id.
pub open spec fn order_key(ps: Seq<Placement>, scopes: Seq<String>, id: Seq<char>) -> (i64, Seq<char>) {
    let seq = if scopes.len() == 0 {
        i64::MAX
    } else {
        match placement_on(ps, id, scopes[0]@) {
            Some(p) => match p.seq {
                Some(s) => s,
                None => i64::MAX,
            },
            None => i64::MAX,
        }
    };
    (seq, id)
}

/// The kept chunks in order.
pub open spec fn ordered_ids(cs: Seq<StubChunk>, ps: Seq<Placement>, scopes: Seq<String>, opts: ScopeOpts) -> Seq<Seq<char>> {
    let kept = kept_ids(cs, ps, scopes, opts);
    let sorted = sorted_pairs(Seq::new(kept.len(), |i: int| order_key(ps, scopes, kept[i])));
    Seq::new(sorted.len(), |i: int| sorted[i].1)
}

/// A scope read keeps its order: what it returns is what it keeps, as many
/// chunks, each of them kept, ordered by seq on the first scope (chunks with
/// no seq last), then by id.
pub proof fn ordered_children_come_back_in_seq_order(
    cs: Seq<StubChunk>,
    ps: Seq<Placement>,
    scopes: Seq<String>,
    opts: ScopeOpts,
)
    ensures
        ({
            let ordered = ordered_ids(cs, ps, scopes, opts);
            let kept = kept_ids(cs, ps, scopes, opts);
            &&& ordered.len() == kept.len()
            &&& forall|i: int| 0 <= i < ordered.len() ==> kept.contains(#[trigger] ordered[i])
            &&& forall|i: int, j: int|
                0 <= i < j < ordered.len() ==> pair_le(
                    order_key(ps, scopes, #[trigger] ordered[i]),
                    order_key(ps, scopes, #[trigger] ordered[j]),
                )
        }),
{
    broadcast use vstd::seq_lib::group_to_multiset_ensures;
    let kept = kept_ids(cs, ps, scopes, opts);
    let keys = Seq::new(kept.len(), |i: int| order_key(ps, scopes, kept[i]));
    let sorted = sorted_pairs(keys);
    let ordered = ordered_ids(cs, ps, scopes, opts);
    sorted_pairs_sorts(keys);
    assert(sorted.len() == keys.len()) by {
        assert(sorted.to_multiset().len() == keys.to_multiset().len());
    }
    assert forall|i: int| 0 <= i < sorted.len() implies sorted[i] == order_key(ps, scopes, sorted[i].1)
        && kept.contains(#[trigger] sorted[i].1) by {
        assert(sorted.contains(sorted[i]));
        assert(keys.to_multiset().count(sorted[i]) > 0);
        assert(keys.contains(sorted[i]));
        let k = choose|k: int| 0 <= k < keys.len() && keys[k] == sorted[i];
        assert(keys[k].1 == kept[k]);
    }
    assert forall|i: int| 0 <= i < ordered.len() implies kept.contains(#[trigger] ordered[i]) by {
        assert(ordered[i] == sorted[i].1);
    }
    assert forall|i: int, j: int| 0 <= i < j < ordered.len() implies pair_le(
        order_key(ps, scopes, #[trigger] ordered[i]),
        order_key(ps, scopes, #[trigger] ordered[j]),
    ) by {
        assert(ordered[i] == sorted[i].1 && ordered[j] == sorted[j].1);
        assert(kept.contains(sorted[i].1) && kept.contains(sorted[j].1));
        assert(pair_le_fn()(sorted[i], sorted[j]));
    }
}

proof fn lemma_keep_within(s: Seq<Seq<char>>, p: spec_fn(Seq<char>) -> bool)
    ensures
        forall|x: Seq<char>| #[trigger] keep(s, p).contains(x) ==> s.contains(x),
    decreases s.len(),
{
    if s.len() > 0 {
        let d = s.drop_last();
        let k = keep(d, p);
        lemma_keep_within(d, p);
        if p(s.last()) {
            assert(keep(s, p) == k.push(s.last()));
        } else {
            assert(keep(s, p) == k);
        }
        assert forall|x: Seq<char>| #[trigger] keep(s, p).contains(x) implies s.contains(x) by {
            let i = choose|i: int| 0 <= i < keep(s, p).len() && keep(s, p)[i] == x;
            if i < k.len() {
                assert(k[i] == x);
                assert(k.contains(x));
                assert(d.contains(x));
                let j = choose|j: int| 0 <= j < d.len() && d[j] == x;
                assert(s[j] == x);
            } else {
                assert(x == s.last());
                assert(s[s.len() - 1] == x);
            }
        }
    }
}

proof fn lemma_ids_on_placed(ps: Seq<Placement>, scope: Seq<char>, n: int)
    requires
        n <= ps.len(),
    ensures
        forall|x: Seq<char>| #[trigger] ids_on(ps, scope, n).contains(x) ==> exists|i: int| 0 <= i < n && ps[i].chunk@ == x,
    decreases n,
{
    if n > 0 {
        lemma_ids_on_placed(ps, scope, n - 1);
        assert forall|x: Seq<char>| #[trigger] ids_on(ps, scope, n).contains(x) implies exists|i: int| 0 <= i < n && ps[i].chunk@ == x by {
            let rest = ids_on(ps, scope, n - 1);
            if x == ps[n - 1].chunk@ {
            } else {
                let i = choose|i: int| 0 <= i < ids_on(ps, scope, n).len() && ids_on(ps, scope, n)[i] == x;
                if ps[n - 1].scope@ == scope && !rest.contains(ps[n - 1].chunk@) {
                    assert(ids_on(ps, scope, n) == rest.push(ps[n - 1].chunk@));
                    assert(rest[i] == x);
                }
                assert(rest.contains(x));
            }
        }
    }
}

/// Where each id stands in the field, when every id names a chunk: the
/// position of the first chunk carrying it.
proof fn lemma_positions_of_chunks(cs: Seq<StubChunk>, ids: Seq<Seq<char>>)
    requires
        forall|i: int| 0 <= i < ids.len() ==> is_chunk(cs, #[trigger] ids[i]),
    ensures
        chunk_positions(cs, ids) == Seq::new(ids.len(), |i: int| first_where(cs.len() as int, chunk_is(cs, ids[i]))->0),
    decreases ids.len(),
{
    if ids.len() > 0 {
        assert(is_chunk(cs, ids[ids.len() - 1]));
        lemma_positions_of_chunks(cs, ids.drop_last());
        assert(chunk_positions(cs, ids) =~= Seq::new(ids.len(), |i: int| first_where(cs.len() as int, chunk_is(cs, ids[i]))->0));
    } else {
        assert(chunk_positions(cs, ids) =~= Seq::new(ids.len(), |i: int| first_where(cs.len() as int, chunk_is(cs, ids[i]))->0));
    }
}

/// A windowed scope read is a slice of the same read without a window: the
/// counts are the same, and (where every placement names a chunk of the
/// field) the chunks are those of the whole read from the window's start to
/// its end, the tail first.
pub proof fn a_window_is_a_slice_of_the_whole_read(
    stub: FixtureStub,
    scopes: Seq<String>,
    opts: ScopeOpts,
    r: ScopeSelection,
    whole: ScopeSelection,
)
    requires
        forall|i: int| 0 <= i < stub.placements@.len() ==> is_chunk(stub.chunks@, #[trigger] stub.placements@[i].chunk@),
        stub.answers(scopes, opts, r),
        stub.answers(scopes, ScopeOpts { limit: None, offset: None, ..opts }, whole),
    ensures
        r.in_scope == whole.in_scope,
        r.total == whole.total,
        r.in_scope_instance == whole.in_scope_instance,
        r.in_scope_relates == whole.in_scope_relates,
        ({
            let (start, end) = window(whole.in_scope as int, opts.limit, opts.offset);
            r.chunks@ == whole.chunks@.subrange(start, end)
        }),
{
    let cs = stub.chunks@;
    let ps = stub.placements@;
    let o2 = ScopeOpts { limit: None, offset: None, ..opts };
    assert(kept_ids(cs, ps, scopes, o2) == kept_ids(cs, ps, scopes, opts));
    assert(ordered_ids(cs, ps, scopes, o2) == ordered_ids(cs, ps, scopes, opts));
    let ordered = ordered_ids(cs, ps, scopes, opts);
    let kept = kept_ids(cs, ps, scopes, opts);
    ordered_children_come_back_in_seq_order(cs, ps, scopes, opts);
    // Every kept id names a chunk.
    let base = base_ids(cs, ps, scopes, opts.match_ is Some);
    let unexcluded = match opts.exclude {
        Some(ex) => keep(base, |id: Seq<char>| !on_any(ps, ex@, id)),
        None => base,
    };
    match opts.exclude {
        Some(ex) => lemma_keep_within(base, |id: Seq<char>| !on_any(ps, ex@, id)),
        None => {},
    }
    match opts.match_ {
        Some(term) => lemma_keep_within(unexcluded, |id: Seq<char>| chunk_matches(cs, id, lowercased(term@))),
        None => {},
    }
    if scopes.len() > 0 {
        lemma_keep_within(ids_on(ps, scopes[0]@, ps.len() as int), |id: Seq<char>| on_all(ps, scopes, id));
        lemma_ids_on_placed(ps, scopes[0]@, ps.len() as int);
    }
    assert forall|i: int| 0 <= i < ordered.len() implies is_chunk(cs, #[trigger] ordered[i]) by {
        let x = ordered[i];
        assert(kept.contains(x));
        assert(unexcluded.contains(x));
        assert(base.contains(x));
        if scopes.len() > 0 {
            assert(ids_on(ps, scopes[0]@, ps.len() as int).contains(x));
            let k = choose|k: int| 0 <= k < ps.len() && ps[k].chunk@ == x;
            assert(is_chunk(cs, ps[k].chunk@));
        } else {
            let k = choose|k: int| 0 <= k < base.len() && base[k] == x;
            assert(cs[k].id@ == x);
            assert(chunk_is(cs, x)(k));
            lemma_first_where(chunk_is(cs, x), cs.len() as int);
        }
    }
    lemma_positions_of_chunks(cs, ordered);
    let n = ordered.len() as int;
    let (start, end) = window(n, opts.limit, opts.offset);
    let sub = ordered.subrange(start, end);
    assert forall|i: int| 0 <= i < sub.len() implies is_chunk(cs, #[trigger] sub[i]) by {
        assert(sub[i] == ordered[start + i]);
    }
    lemma_positions_of_chunks(cs, sub);
    assert(ordered.subrange(0, n) =~= ordered);
    assert(0 <= start <= end <= n);
    let whole_positions = chunk_positions(cs, ordered);
    assert(chunk_positions(cs, sub) =~= whole_positions.subrange(start, end));
    lemma_slice(r.chunks@, whole.chunks@, whole_positions, start, end);
}

proof fn lemma_slice(rc: Seq<usize>, wc: Seq<usize>, a: Seq<int>, start: int, end: int)
    requires
        0 <= start <= end <= a.len(),
        Seq::new(rc.len(), |i: int| rc[i] as int) == a.subrange(start, end),
        Seq::new(wc.len(), |i: int| wc[i] as int) == a,
    ensures
        rc == wc.subrange(start, end),
{
    let rv = Seq::new(rc.len(), |i: int| rc[i] as int);
    let wv = Seq::new(wc.len(), |i: int| wc[i] as int);
    assert(rv.len() == rc.len() && wv.len() == wc.len());
    assert(rc.len() == end - start);
    assert(wc.len() == a.len());
    assert forall|k: int| 0 <= k < rc.len() implies rc[k] == wc.subrange(start, end)[k] by {
        assert(rv[k] == a[start + k]);
        assert(wv[start + k] == a[start + k]);
    }
    assert(rc =~= wc.subrange(start, end));
}

/// How many of `ids` are placed on `scope` by a placement of type `wanted`.
pub open spec fn count_typed(ps: Seq<Placement>, ids: Seq<Seq<char>>, scope: Seq<char>, wanted: PlacementType) -> nat
    decreases ids.len(),
{
    if ids.len() == 0 {
        0
    } else {
        count_typed(ps, ids.drop_last(), scope, wanted) + if placement_on(ps, ids.last(), scope) matches Some(p)
            && p.type_ == wanted {
            1nat
        } else {
            0nat
        }
    }
}

/// The window a limit and an offset cut from `n` results: the tail first,
/// the offset paging backward.
pub open spec fn window(n: int, limit: Option<usize>, offset: Option<usize>) -> (int, int) {
    match limit {
        None => (0, n),
        Some(l) => {
            let off = match offset {
                Some(o) => o as int,
                None => 0,
            };
            let end = if n > off { n - off } else { 0 };
            let start = if end > l { end - l } else { 0 };
            (start, end)
        },
    }
}

/// The chunks the windowed ids name, each by its first position in the field;
/// an id no chunk carries is skipped.
pub open spec fn chunk_positions(cs: Seq<StubChunk>, ids: Seq<Seq<char>>) -> Seq<int>
    decreases ids.len(),
{
    if ids.len() == 0 {
        Seq::empty()
    } else {
        let rest = chunk_positions(cs, ids.drop_last());
        match first_where(cs.len() as int, chunk_is(cs, ids.last())) {
            Some(k) => rest.push(k),
            None => rest,
        }
    }
}

/// Whether a read sends bodies: unless the `body` include is `false`.
pub open spec fn sends_body(includes: Option<Includes>) -> bool {
    !(includes matches Some(inc) && inc.body == Some(false))
}

// ---- reading it ------------------------------------------------------------

fn placed_on_exec(ps: &Vec<Placement>, scope: &str, id: &str) -> (r: bool)
    ensures
        r == placed_on(ps@, scope@, id@),
{
    let mut i: usize = 0;
    while i < ps.len()
        invariant
            i <= ps@.len(),
            forall|j: int| 0 <= j < i ==> !((#[trigger] ps@[j]).scope@ == scope@ && ps@[j].chunk@ == id@),
        decreases ps.len() - i,
    {
        if same_text(ps[i].scope.as_str(), scope) && same_text(ps[i].chunk.as_str(), id) {
            assert(ps@[i as int].scope@ == scope@);
            return true;
        }
        i = i + 1;
    }
    false
}

fn on_all_exec(ps: &Vec<Placement>, scopes: &Vec<String>, id: &str) -> (r: bool)
    ensures
        r == on_all(ps@, scopes@, id@),
{
    let mut k: usize = 0;
    while k < scopes.len()
        invariant
            k <= scopes@.len(),
            forall|j: int| 0 <= j < k ==> placed_on(ps@, (#[trigger] scopes@[j])@, id@),
        decreases scopes.len() - k,
    {
        if !placed_on_exec(ps, scopes[k].as_str(), id) {
            return false;
        }
        k = k + 1;
    }
    true
}

fn on_any_exec(ps: &Vec<Placement>, scopes: &Vec<String>, id: &str) -> (r: bool)
    ensures
        r == on_any(ps@, scopes@, id@),
{
    let mut k: usize = 0;
    while k < scopes.len()
        invariant
            k <= scopes@.len(),
            forall|j: int| 0 <= j < k ==> !placed_on(ps@, (#[trigger] scopes@[j])@, id@),
        decreases scopes.len() - k,
    {
        if placed_on_exec(ps, scopes[k].as_str(), id) {
            return true;
        }
        k = k + 1;
    }
    false
}

fn holds(v: &Vec<String>, id: &str) -> (r: bool)
    ensures
        r == views(v@).contains(id@),
{
    let mut i: usize = 0;
    while i < v.len()
        invariant
            i <= v@.len(),
            forall|j: int| 0 <= j < i ==> (#[trigger] views(v@)[j]) != id@,
        decreases v.len() - i,
    {
        if same_text(v[i].as_str(), id) {
            assert(views(v@)[i as int] == id@);
            return true;
        }
        i = i + 1;
    }
    false
}

fn ids_on_exec(ps: &Vec<Placement>, scope: &str) -> (ids: Vec<String>)
    ensures
        views(ids@) == ids_on(ps@, scope@, ps@.len() as int),
{
    let mut ids: Vec<String> = Vec::new();
    let mut i: usize = 0;
    assert(views(ids@) =~= Seq::<Seq<char>>::empty());
    while i < ps.len()
        invariant
            i <= ps@.len(),
            views(ids@) == ids_on(ps@, scope@, i as int),
        decreases ps.len() - i,
    {
        if same_text(ps[i].scope.as_str(), scope) && !holds(&ids, ps[i].chunk.as_str()) {
            let ghost before = views(ids@);
            ids.push(ps[i].chunk.clone());
            assert(views(ids@) =~= before.push(ps@[i as int].chunk@));
        }
        i = i + 1;
    }
    ids
}

/// The first chunk with this id.
fn chunk_named(cs: &Vec<StubChunk>, id: &str) -> (k: Option<usize>)
    ensures
        match k {
            Some(k) => first_where(cs@.len() as int, chunk_is(cs@, id@)) == Some(k as int),
            None => first_where(cs@.len() as int, chunk_is(cs@, id@)) is None,
        },
{
    let mut i: usize = 0;
    while i < cs.len()
        invariant
            i <= cs@.len(),
            first_where(i as int, chunk_is(cs@, id@)) is None,
        decreases cs.len() - i,
    {
        if same_text(cs[i].id.as_str(), id) {
            proof {
                lemma_first_found(chunk_is(cs@, id@), i as int, cs@.len() as int);
            }
            return Some(i);
        }
        i = i + 1;
    }
    None
}

fn chunk_matches_exec(cs: &Vec<StubChunk>, id: &str, term: &str) -> (r: bool)
    ensures
        r == chunk_matches(cs@, id@, term@),
{
    let k = match chunk_named(cs, id) {
        Some(k) => k,
        None => return false,
    };
    proof {
        lemma_first_where(chunk_is(cs@, id@), cs@.len() as int);
    }
    let needle = chars_of(term);
    let chunk = &cs[k];
    match &chunk.name {
        Some(n) => {
            let lower = to_lowercase(n.as_str());
            if contains_exec(&chars_of(lower.as_str()), &needle) {
                return true;
            }
        },
        None => {},
    }
    let mut t: usize = 0;
    while t < chunk.texts.len()
        invariant
            t <= chunk.texts@.len(),
            needle@ == term@,
            k < cs@.len(),
            *chunk == cs@[k as int],
            first_where(cs@.len() as int, chunk_is(cs@, id@)) == Some(k as int),
            !(chunk.name matches Some(n) && contains(lowercased(n@), term@)),
            forall|j: int| 0 <= j < t ==> !contains(lowercased((#[trigger] chunk.texts@[j])@), term@),
        decreases chunk.texts.len() - t,
    {
        let lower = to_lowercase(chunk.texts[t].as_str());
        if contains_exec(&chars_of(lower.as_str()), &needle) {
            assert(contains(lowercased(cs@[k as int].texts@[t as int]@), term@));
            return true;
        }
        t = t + 1;
    }
    false
}

/// The first placement of `id` on `scope`.
fn placement_on_exec(ps: &Vec<Placement>, id: &str, scope: &str) -> (r: Option<usize>)
    ensures
        match r {
            Some(i) => first_where(ps@.len() as int, places(ps@, id@, scope@)) == Some(i as int),
            None => first_where(ps@.len() as int, places(ps@, id@, scope@)) is None,
        },
{
    let mut i: usize = 0;
    while i < ps.len()
        invariant
            i <= ps@.len(),
            first_where(i as int, places(ps@, id@, scope@)) is None,
        decreases ps.len() - i,
    {
        if same_text(ps[i].chunk.as_str(), id) && same_text(ps[i].scope.as_str(), scope) {
            proof {
                lemma_first_found(places(ps@, id@, scope@), i as int, ps@.len() as int);
            }
            return Some(i);
        }
        i = i + 1;
    }
    None
}

/// The chunks of `from` that pass `test`, with the pass decided per element.
proof fn lemma_keep_step(s: Seq<Seq<char>>, p: spec_fn(Seq<char>) -> bool, i: int)
    requires
        0 <= i < s.len(),
    ensures
        keep(s.take(i + 1), p) == (if p(s[i]) {
            keep(s.take(i), p).push(s[i])
        } else {
            keep(s.take(i), p)
        }),
{
    assert(s.take(i + 1).drop_last() =~= s.take(i));
    assert(s.take(i + 1).last() == s[i]);
}

impl FixtureStub {
    pub fn new(chunks: Vec<StubChunk>, placements: Vec<Placement>) -> (stub: FixtureStub)
        ensures
            stub.chunks == chunks,
            stub.placements == placements,
            stub.head@ == "fixture-head"@,
    {
        FixtureStub { chunks, placements, head: "fixture-head".to_owned() }
    }

    /// `r` is this field's answer to a scope read of `scopes` with `opts`:
    /// everything placed on every one of the scopes (with no scopes and a
    /// search term, the whole field), less the excluded, narrowed by the
    /// term; ordered by seq on the first scope, then id; counted before the
    /// window; windowed from the tail.
    pub open spec fn answers(self, scopes: Seq<String>, opts: ScopeOpts, r: ScopeSelection) -> bool {
        let ordered = ordered_ids(self.chunks@, self.placements@, scopes, opts);
        let (start, end) = window(ordered.len() as int, opts.limit, opts.offset);
        &&& r.in_scope == ordered.len()
        &&& r.total == r.in_scope
        &&& r.in_scope_instance == (if scopes.len() == 0 {
            0
        } else {
            count_typed(self.placements@, ordered, scopes[0]@, PlacementType::Instance)
        })
        &&& r.in_scope_relates == (if scopes.len() == 0 {
            0
        } else {
            count_typed(self.placements@, ordered, scopes[0]@, PlacementType::Relates)
        })
        &&& Seq::new(r.chunks@.len(), |i: int| r.chunks@[i] as int) == chunk_positions(
            self.chunks@,
            ordered.subrange(start, end),
        )
        &&& r.with_body == sends_body(opts.includes)
        &&& r.head@ == self.head@
    }

    /// A scope read of the fixture field.
    pub fn scope_result(&self, scopes: &Vec<String>, opts: &ScopeOpts) -> (r: ScopeSelection)
        ensures
            self.answers(scopes@, *opts, r),
    {
        let cs = &self.chunks;
        let ps = &self.placements;
        // Where the query starts.
        let mut base: Vec<String> = Vec::new();
        if scopes.len() == 0 {
            if opts.match_.is_some() {
                let mut i: usize = 0;
                while i < cs.len()
                    invariant
                        i <= cs@.len(),
                        views(base@) == Seq::new(i as nat, |j: int| cs@[j].id@),
                    decreases cs.len() - i,
                {
                    let ghost before = views(base@);
                    base.push(cs[i].id.clone());
                    assert(views(base@) =~= before.push(cs@[i as int].id@));
                    assert(views(base@) =~= Seq::new((i + 1) as nat, |j: int| cs@[j].id@));
                    i = i + 1;
                }
            }
            assert(views(base@) =~= base_ids(cs@, ps@, scopes@, opts.match_ is Some));
        } else {
            let firsts = ids_on_exec(ps, scopes[0].as_str());
            let ghost p = |id: Seq<char>| on_all(ps@, scopes@, id);
            let mut i: usize = 0;
            assert(views(base@) =~= Seq::<Seq<char>>::empty());
            assert(views(firsts@).take(0) =~= Seq::<Seq<char>>::empty());
            while i < firsts.len()
                invariant
                    i <= firsts@.len(),
                    views(base@) == keep(views(firsts@).take(i as int), p),
                    p == (|id: Seq<char>| on_all(ps@, scopes@, id)),
                decreases firsts.len() - i,
            {
                proof {
                    lemma_keep_step(views(firsts@), p, i as int);
                }
                if on_all_exec(ps, scopes, firsts[i].as_str()) {
                    let ghost before = views(base@);
                    base.push(firsts[i].clone());
                    assert(views(base@) =~= before.push(firsts@[i as int]@));
                }
                i = i + 1;
            }
            assert(views(firsts@).take(i as int) =~= views(firsts@));
        }
        // Less the excluded.
        let ghost base_v = views(base@);
        let mut unexcluded: Vec<String> = Vec::new();
        match &opts.exclude {
            Some(ex) => {
                let ghost p = |id: Seq<char>| !on_any(ps@, ex@, id);
                let mut i: usize = 0;
                assert(views(unexcluded@) =~= Seq::<Seq<char>>::empty());
                assert(base_v.take(0) =~= Seq::<Seq<char>>::empty());
                while i < base.len()
                    invariant
                        i <= base@.len(),
                        base_v == views(base@),
                        views(unexcluded@) == keep(base_v.take(i as int), p),
                        p == (|id: Seq<char>| !on_any(ps@, ex@, id)),
                    decreases base.len() - i,
                {
                    proof {
                        lemma_keep_step(base_v, p, i as int);
                    }
                    if !on_any_exec(ps, ex, base[i].as_str()) {
                        let ghost before = views(unexcluded@);
                        unexcluded.push(base[i].clone());
                        assert(views(unexcluded@) =~= before.push(base@[i as int]@));
                    }
                    i = i + 1;
                }
                assert(base_v.take(i as int) =~= base_v);
            },
            None => {
                unexcluded = base;
            },
        }
        // Narrowed by the search term.
        let ghost unexcluded_v = views(unexcluded@);
        let mut kept: Vec<String> = Vec::new();
        match &opts.match_ {
            Some(term) => {
                let lower = to_lowercase(term.as_str());
                let ghost p = |id: Seq<char>| chunk_matches(cs@, id, lowercased(term@));
                let mut i: usize = 0;
                assert(views(kept@) =~= Seq::<Seq<char>>::empty());
                assert(unexcluded_v.take(0) =~= Seq::<Seq<char>>::empty());
                while i < unexcluded.len()
                    invariant
                        i <= unexcluded@.len(),
                        unexcluded_v == views(unexcluded@),
                        lower@ == lowercased(term@),
                        views(kept@) == keep(unexcluded_v.take(i as int), p),
                        p == (|id: Seq<char>| chunk_matches(cs@, id, lowercased(term@))),
                    decreases unexcluded.len() - i,
                {
                    proof {
                        lemma_keep_step(unexcluded_v, p, i as int);
                    }
                    if chunk_matches_exec(cs, unexcluded[i].as_str(), lower.as_str()) {
                        let ghost before = views(kept@);
                        kept.push(unexcluded[i].clone());
                        assert(views(kept@) =~= before.push(unexcluded@[i as int]@));
                    }
                    i = i + 1;
                }
                assert(unexcluded_v.take(i as int) =~= unexcluded_v);
            },
            None => {
                kept = unexcluded;
            },
        }
        let ghost kept_v = views(kept@);
        assert(kept_v == kept_ids(cs@, ps@, scopes@, *opts));
        // Ordered by seq on the first scope, then id.
        let mut keyed: Vec<(i64, String)> = Vec::new();
        let mut i: usize = 0;
        assert(pair_views(keyed@) =~= Seq::new(0, |j: int| order_key(ps@, scopes@, kept_v[j])));
        while i < kept.len()
            invariant
                i <= kept@.len(),
                kept_v == views(kept@),
                pair_views(keyed@) == Seq::new(i as nat, |j: int| order_key(ps@, scopes@, kept_v[j])),
            decreases kept.len() - i,
        {
            let mut seq: i64 = i64::MAX;
            if scopes.len() > 0 {
                match placement_on_exec(ps, kept[i].as_str(), scopes[0].as_str()) {
                    Some(at) => {
                        proof {
                            lemma_first_where(places(ps@, kept@[i as int]@, scopes@[0]@), ps@.len() as int);
                        }
                        match ps[at].seq {
                            Some(s) => {
                                seq = s;
                            },
                            None => {},
                        }
                    },
                    None => {},
                }
            }
            assert((seq, kept@[i as int]@) == order_key(ps@, scopes@, kept_v[i as int]));
            let ghost before = pair_views(keyed@);
            keyed.push((seq, kept[i].clone()));
            assert(pair_views(keyed@) =~= before.push((seq, kept@[i as int]@)));
            assert(pair_views(keyed@) =~= Seq::new((i + 1) as nat, |j: int| order_key(ps@, scopes@, kept_v[j])));
            i = i + 1;
        }
        let sorted = sort_pairs(keyed);
        let mut ordered: Vec<String> = Vec::new();
        let mut i: usize = 0;
        let ghost ordered_v = ordered_ids(cs@, ps@, scopes@, *opts);
        assert(views(ordered@) =~= ordered_v.take(0));
        while i < sorted.len()
            invariant
                i <= sorted@.len(),
                ordered_v == Seq::new(pair_views(sorted@).len(), |j: int| pair_views(sorted@)[j].1),
                views(ordered@) == ordered_v.take(i as int),
            decreases sorted.len() - i,
        {
            let ghost before = views(ordered@);
            ordered.push(sorted[i].1.clone());
            assert(views(ordered@) =~= before.push(sorted@[i as int].1@));
            assert(pair_views(sorted@)[i as int].1 == sorted@[i as int].1@);
            assert(ordered_v[i as int] == sorted@[i as int].1@);
            assert(ordered_v.take(i + 1) =~= ordered_v.take(i as int).push(ordered_v[i as int]));
            assert(views(ordered@) =~= ordered_v.take(i + 1));
            i = i + 1;
        }
        assert(views(ordered@) =~= ordered_v);
        // Counted before the window.
        let mut instances: usize = 0;
        let mut relates: usize = 0;
        if scopes.len() > 0 {
            let mut i: usize = 0;
            assert(ordered_v.take(0) =~= Seq::<Seq<char>>::empty());
            while i < ordered.len()
                invariant
                    i <= ordered@.len(),
                    scopes@.len() > 0,
                    views(ordered@) == ordered_v,
                    instances as nat == count_typed(ps@, ordered_v.take(i as int), scopes@[0]@, PlacementType::Instance),
                    relates as nat == count_typed(ps@, ordered_v.take(i as int), scopes@[0]@, PlacementType::Relates),
                    instances <= i,
                    relates <= i,
                decreases ordered.len() - i,
            {
                proof {
                    assert(ordered_v.take(i + 1).drop_last() =~= ordered_v.take(i as int));
                    assert(ordered_v.take(i + 1).last() == ordered@[i as int]@);
                }
                match placement_on_exec(ps, ordered[i].as_str(), scopes[0].as_str()) {
                    Some(at) => {
                        proof {
                            lemma_first_where(places(ps@, ordered@[i as int]@, scopes@[0]@), ps@.len() as int);
                        }
                        if ps[at].type_ == PlacementType::Instance {
                            instances = instances + 1;
                        } else {
                            relates = relates + 1;
                        }
                    },
                    None => {},
                }
                i = i + 1;
            }
            assert(ordered_v.take(i as int) =~= ordered_v);
        }
        // Windowed from the tail.
        let n = ordered.len();
        let (start, end) = match opts.limit {
            None => (0, n),
            Some(limit) => {
                let offset = match opts.offset {
                    Some(o) => o,
                    None => 0,
                };
                let end = if n > offset { n - offset } else { 0 };
                let start = if end > limit { end - limit } else { 0 };
                (start, end)
            },
        };
        let mut chunks: Vec<usize> = Vec::new();
        let mut i: usize = start;
        let ghost win = ordered_v.subrange(start as int, end as int);
        assert(Seq::new(chunks@.len(), |j: int| chunks@[j] as int) =~= chunk_positions(cs@, win.take(0)));
        while i < end
            invariant
                start <= i <= end <= ordered@.len(),
                views(ordered@) == ordered_v,
                win == ordered_v.subrange(start as int, end as int),
                Seq::new(chunks@.len(), |j: int| chunks@[j] as int) == chunk_positions(cs@, win.take(i - start)),
            decreases end - i,
        {
            proof {
                assert(win.take(i - start + 1).drop_last() =~= win.take(i - start));
                assert(win.take(i - start + 1).last() == ordered@[i as int]@);
            }
            let ghost before = Seq::new(chunks@.len(), |j: int| chunks@[j] as int);
            match chunk_named(cs, ordered[i].as_str()) {
                Some(k) => {
                    chunks.push(k);
                    assert(Seq::new(chunks@.len(), |j: int| chunks@[j] as int) =~= before.push(k as int));
                },
                None => {},
            }
            i = i + 1;
        }
        assert(win.take(end - start) =~= win);
        let with_body = match &opts.includes {
            Some(inc) => match inc.body {
                Some(b) => b,
                None => true,
            },
            None => true,
        };
        ScopeSelection {
            head: self.head.clone(),
            total: n,
            in_scope: n,
            in_scope_instance: instances,
            in_scope_relates: relates,
            chunks,
            with_body,
        }
    }
}

/// The wire name of a placement type.
pub open spec fn placement_kind_name(t: PlacementType) -> Seq<char> {
    match t {
        PlacementType::Instance => "instance"@,
        PlacementType::Relates => "relates"@,
    }
}

/// The placements of `id`, in the order given, as a read reports them.
pub open spec fn placements_of_spec(ps: Seq<Placement>, id: Seq<char>, n: int) -> Seq<(Seq<char>, Seq<char>, Option<i64>)>
    decreases n,
{
    if n <= 0 {
        Seq::empty()
    } else {
        let rest = placements_of_spec(ps, id, n - 1);
        if ps[n - 1].chunk@ == id {
            rest.push((ps[n - 1].scope@, placement_kind_name(ps[n - 1].type_), ps[n - 1].seq))
        } else {
            rest
        }
    }
}

/// How a placement should read on the wire: its scope, `instance` for an
/// instance and `relates` for a relation, and its seq.
pub open spec fn reported(p: Placement) -> (Seq<char>, Seq<char>, Option<i64>) {
    (p.scope@, if p.type_ == PlacementType::Instance { "instance"@ } else { "relates"@ }, p.seq)
}

/// The position in `ps` of the placement that the `k`-th entry of a read of
/// `id` over the first `n` placements stands for.
pub open spec fn read_origin(ps: Seq<Placement>, id: Seq<char>, n: int, k: int) -> int
    decreases n,
{
    if n <= 0 {
        0
    } else if ps[n - 1].chunk@ == id && k == placements_of_spec(ps, id, n - 1).len() {
        n - 1
    } else {
        read_origin(ps, id, n - 1, k)
    }
}

/// A read reports each placement of a chunk with the wire name of its own
/// type (an instance as `instance`, a relation as `relates`, two different
/// names) and its own scope and seq: each entry stands for a placement of the
/// chunk, later entries for later placements, and every placement of the
/// chunk has its entry.
pub proof fn reads_name_each_placement_by_its_own_type(ps: Seq<Placement>, id: Seq<char>, n: int)
    requires
        n <= ps.len(),
    ensures
        "instance"@ != "relates"@,
        forall|k: int|
            #![trigger read_origin(ps, id, n, k)]
            0 <= k < placements_of_spec(ps, id, n).len() ==> {
                let i = read_origin(ps, id, n, k);
                &&& 0 <= i < n
                &&& ps[i].chunk@ == id
                &&& placements_of_spec(ps, id, n)[k] == reported(ps[i])
            },
        forall|k: int, j: int|
            0 <= k < j < placements_of_spec(ps, id, n).len() ==> #[trigger] read_origin(ps, id, n, k)
                < #[trigger] read_origin(ps, id, n, j),
        forall|i: int|
            0 <= i < n && ps[i].chunk@ == id ==> exists|k: int|
                0 <= k < placements_of_spec(ps, id, n).len() && #[trigger] read_origin(ps, id, n, k) == i,
    decreases n,
{
    reveal_strlit("instance");
    reveal_strlit("relates");
    assert("instance"@.len() != "relates"@.len());
    if n > 0 {
        reads_name_each_placement_by_its_own_type(ps, id, n - 1);
        let rest = placements_of_spec(ps, id, n - 1);
        let all = placements_of_spec(ps, id, n);
        if ps[n - 1].chunk@ == id {
            assert(placement_kind_name(ps[n - 1].type_) == reported(ps[n - 1]).1);
            assert(all == rest.push(reported(ps[n - 1])));
            assert forall|k: int| 0 <= k < rest.len() implies read_origin(ps, id, n, k) == read_origin(ps, id, n - 1, k) by {}
            assert(read_origin(ps, id, n, rest.len() as int) == n - 1);
            assert forall|k: int| #![trigger read_origin(ps, id, n, k)] 0 <= k < all.len() implies {
                let i = read_origin(ps, id, n, k);
                &&& 0 <= i < n
                &&& ps[i].chunk@ == id
                &&& all[k] == reported(ps[i])
            } by {
                if k < rest.len() {
                    assert(all[k] == rest[k]);
                    assert(read_origin(ps, id, n, k) == read_origin(ps, id, n - 1, k));
                } else {
                    assert(k == rest.len());
                    assert(read_origin(ps, id, n, k) == n - 1);
                    assert(all[k] == reported(ps[n - 1]));
                }
            }
            assert forall|k: int, j: int| 0 <= k < j < all.len() implies #[trigger] read_origin(ps, id, n, k)
                < #[trigger] read_origin(ps, id, n, j) by {
                if j < rest.len() {
                } else {
                    assert(rest[k] == rest[k]);
                }
            }
            assert forall|i: int| 0 <= i < n && ps[i].chunk@ == id implies exists|k: int|
                0 <= k < all.len() && #[trigger] read_origin(ps, id, n, k) == i by {
                if i < n - 1 {
                    let k = choose|k: int| 0 <= k < rest.len() && #[trigger] read_origin(ps, id, n - 1, k) == i;
                    assert(read_origin(ps, id, n, k) == i);
                } else {
                    assert(read_origin(ps, id, n, rest.len() as int) == i);
                }
            }
        } else {
            assert(all == rest);
            assert forall|k: int| read_origin(ps, id, n, k) == read_origin(ps, id, n - 1, k) by {}
            assert forall|k: int| #![trigger read_origin(ps, id, n, k)] 0 <= k < all.len() implies {
                let i = read_origin(ps, id, n, k);
                &&& 0 <= i < n
                &&& ps[i].chunk@ == id
                &&& all[k] == reported(ps[i])
            } by {
                assert(all[k] == rest[k]);
                assert(read_origin(ps, id, n, k) == read_origin(ps, id, n - 1, k));
            }
            assert forall|i: int| 0 <= i < n && ps[i].chunk@ == id implies exists|k: int|
                0 <= k < all.len() && #[trigger] read_origin(ps, id, n, k) == i by {
                let k = choose|k: int| 0 <= k < rest.len() && #[trigger] read_origin(ps, id, n - 1, k) == i;
                assert(read_origin(ps, id, n, k) == i);
            }
        }
    }
}

pub open spec fn wire_views(v: Seq<WirePlacement>) -> Seq<(Seq<char>, Seq<char>, Option<i64>)> {
    Seq::new(v.len(), |i: int| (v[i].scope_id@, v[i].type_@, v[i].seq))
}

/// The text of the error an op answers with when it needs the real engine.
pub open spec fn unavailable_text(op: Seq<char>) -> Seq<char> {
    "fixture stub: '"@ + op + "' needs the real engine \u{2014} not available in the hollow host"@
}

/// The answer to an op the fixture cannot give.
pub fn unavailable(op: &str) -> (e: EngineError)
    ensures
        e.code == ErrorCode::InvalidRequest,
        e.message@ == unavailable_text(op@),
{
    let mut text: Vec<char> = Vec::new();
    push_str(&mut text, "fixture stub: '");
    push_str(&mut text, op);
    push_str(&mut text, "' needs the real engine \u{2014} not available in the hollow host");
    EngineError::new(ErrorCode::InvalidRequest, string_of(&text).as_str())
}

/// Why a read is refused, if it is: the fixture field is one snapshot on one
/// branch, so a read at a commit, or on any branch but the fixture's, is
/// refused rather than answered from the wrong snapshot.
pub open spec fn refusal(branch: Option<Seq<char>>, at: Option<Seq<char>>) -> Option<Seq<char>> {
    match at {
        Some(commit) => Some("fixture stub: reading at commit '"@ + commit + "' needs the real engine"@),
        None => match branch {
            None => None,
            Some(b) => if b == FIXTURE_BRANCH@ {
                None
            } else {
                Some(
                    "fixture stub: branch '"@ + b
                        + "' needs the real engine \u{2014} the fixture field is on '"@ + FIXTURE_BRANCH@
                        + "'"@,
                )
            },
        },
    }
}

/// An optional text, read as characters.
pub open spec fn text_of(o: Option<&str>) -> Option<Seq<char>> {
    match o {
        Some(t) => Some(t@),
        None => None,
    }
}

/// An optional string, read as characters.
pub open spec fn string_text(o: Option<String>) -> Option<Seq<char>> {
    match o {
        Some(t) => Some(t@),
        None => None,
    }
}

/// `r` answers a read that `refusal` judged: the refusal's error, or `ok`.
pub open spec fn judged<T>(why: Option<Seq<char>>, r: Result<T, EngineError>, ok: spec_fn(T) -> bool) -> bool {
    match why {
        Some(m) => r matches Err(e) && e.code == ErrorCode::InvalidRequest && e.message@ == m,
        None => r matches Ok(v) && ok(v),
    }
}

/// Refuses a read off the fixture's snapshot.
pub fn snapshot(branch: Option<&str>, at: Option<&str>) -> (r: Result<(), EngineError>)
    ensures
        judged(refusal(text_of(branch), text_of(at)), r, |u: ()| true),
{
    match at {
        Some(commit) => {
            let mut text: Vec<char> = Vec::new();
            push_str(&mut text, "fixture stub: reading at commit '");
            push_str(&mut text, commit);
            push_str(&mut text, "' needs the real engine");
            Err(EngineError::new(ErrorCode::InvalidRequest, string_of(&text).as_str()))
        },
        None => match branch {
            None => Ok(()),
            Some(b) => {
                if same_text(b, FIXTURE_BRANCH) {
                    Ok(())
                } else {
                    let mut text: Vec<char> = Vec::new();
                    push_str(&mut text, "fixture stub: branch '");
                    push_str(&mut text, b);
                    push_str(&mut text, "' needs the real engine \u{2014} the fixture field is on '");
                    push_str(&mut text, FIXTURE_BRANCH);
                    push_str(&mut text, "'");
                    Err(EngineError::new(ErrorCode::InvalidRequest, string_of(&text).as_str()))
                }
            },
        },
    }
}

fn as_text(o: &Option<String>) -> (r: Option<&str>)
    ensures
        text_of(r) == string_text(*o),
{
    match o {
        Some(t) => Some(t.as_str()),
        None => None,
    }
}

impl FixtureStub {
    /// A chunk's placements, as a read reports them.
    pub fn placements_of(&self, id: &str) -> (wire: Vec<WirePlacement>)
        ensures
            wire_views(wire@) == placements_of_spec(self.placements@, id@, self.placements@.len() as int),
    {
        let ps = &self.placements;
        let mut out: Vec<WirePlacement> = Vec::new();
        let mut i: usize = 0;
        assert(wire_views(out@) =~= Seq::empty());
        while i < ps.len()
            invariant
                i <= ps@.len(),
                wire_views(out@) == placements_of_spec(ps@, id@, i as int),
            decreases ps.len() - i,
        {
            if same_text(ps[i].chunk.as_str(), id) {
                let type_ = match ps[i].type_ {
                    PlacementType::Instance => "instance",
                    PlacementType::Relates => "relates",
                };
                let ghost before = wire_views(out@);
                out.push(WirePlacement { scope_id: ps[i].scope.clone(), type_, seq: ps[i].seq });
                assert(wire_views(out@) =~= before.push((ps@[i as int].scope@, placement_kind_name(ps@[i as int].type_), ps@[i as int].seq)));
            }
            i = i + 1;
        }
        out
    }

    /// The first chunk carrying this id, if any.
    pub fn chunk_index(&self, id: &str) -> (k: Option<usize>)
        ensures
            match k {
                Some(k) => first_where(self.chunks@.len() as int, chunk_is(self.chunks@, id@)) == Some(k as int),
                None => first_where(self.chunks@.len() as int, chunk_is(self.chunks@, id@)) is None,
            },
    {
        chunk_named(&self.chunks, id)
    }
}

impl FixtureStub {
    /// A scope read: refused off the fixture's snapshot, otherwise answered.
    pub fn scope(&self, scopes: &Vec<String>, opts: &ScopeOpts) -> (r: Result<ScopeSelection, EngineError>)
        ensures
            judged(
                refusal(string_text(opts.branch), string_text(opts.at)),
                r,
                |sel: ScopeSelection| self.answers(scopes@, *opts, sel),
            ),
    {
        match snapshot(as_text(&opts.branch), as_text(&opts.at)) {
            Err(e) => Err(e),
            Ok(()) => Ok(self.scope_result(scopes, opts)),
        }
    }

    /// A single-chunk read: refused off the fixture's snapshot; otherwise the
    /// position of the first chunk with the id (none for an unknown id, which
    /// reads as null) and whether its body is sent.
    pub fn get(&self, chunk_id: &str, opts: &ReadOpts) -> (r: Result<Option<(usize, bool)>, EngineError>)
        ensures
            judged(
                refusal(string_text(opts.branch), string_text(opts.at)),
                r,
                |found: Option<(usize, bool)>| match first_where(self.chunks@.len() as int, chunk_is(self.chunks@, chunk_id@)) {
                    Some(k) => found matches Some((i, b)) && i == k && b == sends_body(opts.includes),
                    None => found is None,
                },
            ),
    {
        match snapshot(as_text(&opts.branch), as_text(&opts.at)) {
            Err(e) => Err(e),
            Ok(()) => {
                let with_body = match &opts.includes {
                    Some(inc) => match inc.body {
                        Some(b) => b,
                        None => true,
                    },
                    None => true,
                };
                match self.chunk_index(chunk_id) {
                    Some(k) => Ok(Some((k, with_body))),
                    None => Ok(None),
                }
            },
        }
    }
}

/// The id of the `n`th subscription.
pub open spec fn subscription_id(n: nat) -> Seq<char> {
    "sub_"@ + decimal(n)
}

/// Some chunk of the field has this id.
pub open spec fn is_chunk(cs: Seq<StubChunk>, id: Seq<char>) -> bool {
    first_where(cs.len() as int, chunk_is(cs, id)) is Some
}

/// Scope `k` names no chunk of the field.
pub open spec fn missing(cs: Seq<StubChunk>, scopes: Seq<String>) -> spec_fn(int) -> bool {
    |k: int| !is_chunk(cs, scopes[k]@)
}

/// One of the first `n` strings reads `t`.
pub open spec fn among(v: Seq<String>, n: int, t: Seq<char>) -> bool {
    exists|j: int| 0 <= j < n && (#[trigger] v[j])@ == t
}

/// The subscriptions taken on the fixture field: how many were ever issued
/// (the `n`th is numbered `n`), and the ids still active.
pub struct Subscriptions {
    next: u64,
    active: Vec<String>,
}

impl Subscriptions {
    /// How many subscriptions were ever issued.
    pub closed spec fn issued(self) -> nat {
        self.next as nat
    }

    /// The ids still active.
    pub closed spec fn active(self) -> Set<Seq<char>> {
        Set::new(|t: Seq<char>| among(self.active@, self.active@.len() as int, t))
    }

    /// None issued, none active.
    pub fn new() -> (s: Subscriptions)
        ensures
            s.issued() == 0,
            s.active() == Set::<Seq<char>>::empty(),
    {
        let s = Subscriptions { next: 0, active: Vec::new() };
        assert(s.active() =~= Set::<Seq<char>>::empty());
        s
    }

    /// How many subscriptions were ever issued.
    pub fn issued_count(&self) -> (n: u64)
        ensures
            n == self.issued(),
    {
        self.next
    }

    /// Subscribes to scopes of `field`: every scope must name one of its
    /// chunks (the first that does not is the error); otherwise the next id is
    /// issued and active.
    pub fn subscribe(&mut self, field: &FixtureStub, scopes: &Vec<String>) -> (r: Result<String, EngineError>)
        requires
            old(self).issued() < u64::MAX,
        ensures
            match first_where(scopes@.len() as int, missing(field.chunks@, scopes@)) {
                Some(k) => r matches Err(e) && e.code == ErrorCode::NotFound && e.message@ == "scope '"@
                    + scopes@[k]@ + "' does not exist"@ && final(self).issued() == old(self).issued()
                    && final(self).active() == old(self).active(),
                None => r matches Ok(id) && id@ == subscription_id(old(self).issued() + 1)
                    && final(self).issued() == old(self).issued() + 1 && final(self).active() == old(
                    self,
                ).active().insert(id@),
            },
    {
        let mut k: usize = 0;
        while k < scopes.len()
            invariant
                k <= scopes@.len(),
                first_where(k as int, missing(field.chunks@, scopes@)) is None,
            decreases scopes.len() - k,
        {
            if field.chunk_index(scopes[k].as_str()).is_none() {
                proof {
                    lemma_first_found(missing(field.chunks@, scopes@), k as int, scopes@.len() as int);
                }
                let mut text: Vec<char> = Vec::new();
                push_str(&mut text, "scope '");
                push_str(&mut text, scopes[k].as_str());
                push_str(&mut text, "' does not exist");
                return Err(EngineError::new(ErrorCode::NotFound, string_of(&text).as_str()));
            }
            k = k + 1;
        }
        self.next = self.next + 1;
        let mut text: Vec<char> = Vec::new();
        push_str(&mut text, "sub_");
        push_decimal(&mut text, self.next);
        let id = string_of(&text);
        let ghost before = self.active@;
        self.active.push(id.clone());
        proof {
            assert(self.active@ == before.push(id));
            assert(self.active@[before.len() as int]@ == id@);
            assert(self.active() =~= old(self).active().insert(id@)) by {
                assert forall|t: Seq<char>| #[trigger] self.active().contains(t) implies old(self).active().insert(id@).contains(t) by {
                    let i = choose|i: int| 0 <= i < self.active@.len() && (#[trigger] self.active@[i])@ == t;
                    if i < before.len() {
                        assert(self.active@[i] == before[i]);
                        assert(among(before, before.len() as int, t));
                    }
                }
                assert forall|t: Seq<char>| #[trigger] old(self).active().contains(t) implies self.active().contains(t) by {
                    let i = choose|i: int| 0 <= i < before.len() && (#[trigger] before[i])@ == t;
                    assert(self.active@[i] == before[i]);
                    assert(among(self.active@, self.active@.len() as int, t));
                }
            }
        }
        Ok(id)
    }

    /// Ends a subscription; ending one that is not active changes nothing.
    pub fn unsubscribe(&mut self, id: &str)
        ensures
            final(self).issued() == old(self).issued(),
            final(self).active() == old(self).active().remove(id@),
    {
        let mut kept: Vec<String> = Vec::new();
        let mut i: usize = 0;
        while i < self.active.len()
            invariant
                i <= self.active@.len(),
                forall|t: Seq<char>| #[trigger] among(kept@, kept@.len() as int, t) <==> (t != id@ && among(self.active@, i as int, t)),
            decreases self.active.len() - i,
        {
            let ghost before = kept@;
            if !same_text(self.active[i].as_str(), id) {
                kept.push(self.active[i].clone());
            }
            proof {
                assert forall|t: Seq<char>| #[trigger] among(kept@, kept@.len() as int, t) <==> (t != id@ && among(self.active@, i + 1, t)) by {
                    if among(kept@, kept@.len() as int, t) {
                        let j = choose|j: int| 0 <= j < kept@.len() && (#[trigger] kept@[j])@ == t;
                        if j < before.len() {
                            assert(kept@[j] == before[j]);
                            assert(among(before, before.len() as int, t));
                        }
                    }
                    if t != id@ && among(self.active@, i + 1, t) {
                        let j = choose|j: int| 0 <= j < i + 1 && (#[trigger] self.active@[j])@ == t;
                        if j < i {
                            assert(among(self.active@, i as int, t));
                            assert(among(before, before.len() as int, t));
                            let m = choose|m: int| 0 <= m < before.len() && (#[trigger] before[m])@ == t;
                            assert(kept@[m] == before[m]);
                        } else {
                            assert(kept@[before.len() as int]@ == t);
                        }
                    }
                }
            }
            i = i + 1;
        }
        self.active = kept;
        assert(self.active() =~= old(self).active().remove(id@));
    }
}

/// Subscriptions are numbered one after another, so no two ever share an id;
/// and ending a subscription twice is ending it once.
pub proof fn subscriptions_are_numbered_and_ended_once(
    n: nat,
    m: nat,
    active: Set<Seq<char>>,
    id: Seq<char>,
)
    requires
        n != m,
    ensures
        subscription_id(n) != subscription_id(m),
        active.remove(id).remove(id) == active.remove(id),
{
    if subscription_id(n) == subscription_id(m) {
        reveal_strlit("sub_");
        assert(decimal(n) =~= subscription_id(n).skip(4));
        assert(decimal(m) =~= subscription_id(m).skip(4));
        decimal_is_injective(n, m);
    }
    assert(active.remove(id).remove(id) =~= active.remove(id));
}

} // verus!
