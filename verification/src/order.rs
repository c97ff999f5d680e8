//! Text in lexicographic order, by character code: the order `String`'s `Ord`
//! gives (UTF-8 preserves the order of code points), and a sort by it.

use vstd::prelude::*;
use vstd::relations::*;
use vstd::seq_lib::*;
use crate::text::chars_of;

verus! {

/// `a` comes strictly before `b`: at the first position where they differ
/// `a` holds the smaller character, or `a` is a proper prefix of `b`.
pub open spec fn lex_lt(a: Seq<char>, b: Seq<char>) -> bool
    decreases a.len(),
{
    if a.len() == 0 {
        b.len() > 0
    } else if b.len() == 0 {
        false
    } else if (a[0] as int) < (b[0] as int) {
        true
    } else if (a[0] as int) > (b[0] as int) {
        false
    } else {
        lex_lt(a.skip(1), b.skip(1))
    }
}

/// `a` comes no later than `b`.
pub open spec fn lex_le(a: Seq<char>, b: Seq<char>) -> bool {
    lex_lt(a, b) || a == b
}

pub open spec fn lex_le_fn() -> spec_fn(Seq<char>, Seq<char>) -> bool {
    |a: Seq<char>, b: Seq<char>| lex_le(a, b)
}

pub proof fn lemma_lex_irreflexive(a: Seq<char>)
    ensures
        !lex_lt(a, a),
    decreases a.len(),
{
    if a.len() > 0 {
        lemma_lex_irreflexive(a.skip(1));
    }
}

proof fn lemma_heads_equal(a: Seq<char>, b: Seq<char>)
    requires
        a.len() > 0,
        b.len() > 0,
        a[0] as int == b[0] as int,
        a.skip(1) == b.skip(1),
    ensures
        a == b,
{
    assert(a[0] == b[0]);
    assert(a =~= seq![a[0]] + a.skip(1));
    assert(b =~= seq![b[0]] + b.skip(1));
}

pub proof fn lemma_lex_total(a: Seq<char>, b: Seq<char>)
    ensures
        lex_lt(a, b) || a == b || lex_lt(b, a),
        !(lex_lt(a, b) && lex_lt(b, a)),
    decreases a.len(),
{
    if a.len() == 0 {
        if b.len() == 0 {
            assert(a =~= b);
        }
    } else if b.len() > 0 && a[0] as int == b[0] as int {
        lemma_lex_total(a.skip(1), b.skip(1));
        if a.skip(1) == b.skip(1) {
            lemma_heads_equal(a, b);
        }
    }
}

pub proof fn lemma_lex_transitive(a: Seq<char>, b: Seq<char>, c: Seq<char>)
    requires
        lex_lt(a, b),
        lex_lt(b, c),
    ensures
        lex_lt(a, c),
    decreases a.len(),
{
    if a.len() > 0 && b.len() > 0 && c.len() > 0 && a[0] as int == b[0] as int && b[0] as int
        == c[0] as int {
        lemma_lex_transitive(a.skip(1), b.skip(1), c.skip(1));
    }
}

/// Lexicographic order is a total order.
pub proof fn lex_le_is_total()
    ensures
        total_ordering(lex_le_fn()),
{
    assert forall|a: Seq<char>| #[trigger] lex_le_fn()(a, a) by {}
    assert forall|a: Seq<char>, b: Seq<char>|
        #[trigger] lex_le_fn()(a, b) && #[trigger] lex_le_fn()(b, a) implies a == b by {
        lemma_lex_total(a, b);
    }
    assert forall|a: Seq<char>, b: Seq<char>, c: Seq<char>|
        #[trigger] lex_le_fn()(a, b) && #[trigger] lex_le_fn()(b, c) implies lex_le_fn()(a, c) by {
        if lex_lt(a, b) && lex_lt(b, c) {
            lemma_lex_transitive(a, b, c);
        }
    }
    assert forall|a: Seq<char>, b: Seq<char>| #[trigger] lex_le_fn()(a, b) || #[trigger] lex_le_fn()(b, a) by {
        lemma_lex_total(a, b);
    }
}

/// Whether `a` comes strictly before `b`.
pub fn lex_less(a: &str, b: &str) -> (r: bool)
    ensures
        r == lex_lt(a@, b@),
{
    let x = chars_of(a);
    let y = chars_of(b);
    let mut i: usize = 0;
    assert(x@.skip(0) =~= x@);
    assert(y@.skip(0) =~= y@);
    while i < x.len() && i < y.len() && x[i] == y[i]
        invariant
            i <= x@.len(),
            i <= y@.len(),
            lex_lt(x@, y@) == lex_lt(x@.skip(i as int), y@.skip(i as int)),
        decreases x.len() - i,
    {
        assert(x@.skip(i as int).skip(1) =~= x@.skip(i + 1));
        assert(y@.skip(i as int).skip(1) =~= y@.skip(i + 1));
        i = i + 1;
    }
    if i == x.len() {
        i < y.len()
    } else if i == y.len() {
        false
    } else {
        assert(x@.skip(i as int)[0] == x@[i as int] && y@.skip(i as int)[0] == y@[i as int]);
        x[i] < y[i]
    }
}

/// The characters of each string.
pub open spec fn views(v: Seq<String>) -> Seq<Seq<char>> {
    Seq::new(v.len(), |i: int| v[i]@)
}

/// The texts of `s`, sorted: the one arrangement of them in lexicographic
/// order.
pub open spec fn sorted_texts(s: Seq<Seq<char>>) -> Seq<Seq<char>> {
    choose|t: Seq<Seq<char>>| sorted_by(t, lex_le_fn()) && t.to_multiset() == s.to_multiset()
}

/// A sorted arrangement of `s` is the one `sorted_texts` names.
pub proof fn sorted_is_sorted_texts(t: Seq<Seq<char>>, s: Seq<Seq<char>>)
    requires
        sorted_by(t, lex_le_fn()),
        t.to_multiset() == s.to_multiset(),
    ensures
        t == sorted_texts(s),
{
    let u = sorted_texts(s);
    assert(sorted_by(u, lex_le_fn()) && u.to_multiset() == s.to_multiset());
    lex_le_is_total();
    lemma_sorted_unique(t, u, lex_le_fn());
}

/// `sorted_texts` is a sorted arrangement of its input.
pub proof fn sorted_texts_sorts(s: Seq<Seq<char>>)
    ensures
        sorted_by(sorted_texts(s), lex_le_fn()),
        sorted_texts(s).to_multiset() == s.to_multiset(),
{
    lex_le_is_total();
    s.lemma_sort_by_ensures(lex_le_fn());
    let w = s.sort_by(lex_le_fn());
    assert(sorted_by(w, lex_le_fn()) && w.to_multiset() == s.to_multiset());
}

/// Sorts strings lexicographically.
pub fn sort_texts(v: &Vec<String>) -> (r: Vec<String>)
    ensures
        views(r@) == sorted_texts(views(v@)),
        sorted_by(views(r@), lex_le_fn()),
        views(r@).to_multiset() == views(v@).to_multiset(),
{
    broadcast use vstd::seq_lib::group_to_multiset_ensures;
    let mut out: Vec<String> = Vec::new();
    let mut i: usize = 0;
    assert(views(v@).take(0) =~= Seq::<Seq<char>>::empty());
    assert(views(out@) =~= Seq::<Seq<char>>::empty());
    while i < v.len()
        invariant
            i <= v@.len(),
            sorted_by(views(out@), lex_le_fn()),
            views(out@).to_multiset() == views(v@).take(i as int).to_multiset(),
        decreases v.len() - i,
    {
        let x = v[i].clone();
        let mut j: usize = 0;
        while j < out.len() && !lex_less(x.as_str(), out[j].as_str())
            invariant
                j <= out@.len(),
                x@ == v@[i as int]@,
                forall|k: int| 0 <= k < j ==> !lex_lt(x@, #[trigger] views(out@)[k]),
            decreases out.len() - j,
        {
            j = j + 1;
        }
        let ghost before = views(out@);
        out.insert(j, x);
        proof {
            assert(views(out@) =~= before.insert(j as int, x@));
            to_multiset_insert(before, j as int, x@);
            assert(views(v@).take(i + 1) =~= views(v@).take(i as int).push(x@));
            to_multiset_build(views(v@).take(i as int), x@);
            let after = views(out@);
            assert forall|a: int, b: int| 0 <= a < b < after.len() implies #[trigger] lex_le_fn()(
                after[a],
                after[b],
            ) by {
                lex_le_is_total();
                if a < j && b < j {
                    assert(lex_le_fn()(before[a], before[b]));
                } else if a < j && b == j {
                    lemma_lex_total(x@, before[a]);
                } else if a < j && b > j {
                    assert(lex_le_fn()(before[a], before[b - 1]));
                } else if a == j {
                    if j < before.len() {
                        assert(lex_lt(x@, before[j as int]));
                        if b - 1 > j {
                            assert(lex_le_fn()(before[j as int], before[b - 1]));
                            if lex_lt(before[j as int], before[b - 1]) {
                                lemma_lex_transitive(x@, before[j as int], before[b - 1]);
                            }
                        }
                    }
                } else {
                    assert(lex_le_fn()(before[a - 1], before[b - 1]));
                }
            }
        }
        i = i + 1;
    }
    proof {
        assert(views(v@).take(i as int) =~= views(v@));
        sorted_is_sorted_texts(views(out@), views(v@));
    }
    out
}

/// Pairs ordered by their number, then by their text.
pub open spec fn pair_le(a: (i64, Seq<char>), b: (i64, Seq<char>)) -> bool {
    a.0 < b.0 || (a.0 == b.0 && lex_le(a.1, b.1))
}

pub open spec fn pair_le_fn() -> spec_fn((i64, Seq<char>), (i64, Seq<char>)) -> bool {
    |a: (i64, Seq<char>), b: (i64, Seq<char>)| pair_le(a, b)
}

/// The order on pairs is a total order.
pub proof fn pair_le_is_total()
    ensures
        total_ordering(pair_le_fn()),
{
    assert forall|a: (i64, Seq<char>)| #[trigger] pair_le_fn()(a, a) by {}
    assert forall|a: (i64, Seq<char>), b: (i64, Seq<char>)|
        #[trigger] pair_le_fn()(a, b) && #[trigger] pair_le_fn()(b, a) implies a == b by {
        lemma_lex_total(a.1, b.1);
    }
    assert forall|a: (i64, Seq<char>), b: (i64, Seq<char>), c: (i64, Seq<char>)|
        #[trigger] pair_le_fn()(a, b) && #[trigger] pair_le_fn()(b, c) implies pair_le_fn()(a, c) by {
        if a.0 == b.0 && b.0 == c.0 && lex_lt(a.1, b.1) && lex_lt(b.1, c.1) {
            lemma_lex_transitive(a.1, b.1, c.1);
        }
    }
    assert forall|a: (i64, Seq<char>), b: (i64, Seq<char>)| #[trigger] pair_le_fn()(a, b) || #[trigger] pair_le_fn()(b, a) by {
        lemma_lex_total(a.1, b.1);
    }
}

/// The pairs of `s`, sorted: the one arrangement of them in pair order.
pub open spec fn sorted_pairs(s: Seq<(i64, Seq<char>)>) -> Seq<(i64, Seq<char>)> {
    choose|t: Seq<(i64, Seq<char>)>| sorted_by(t, pair_le_fn()) && t.to_multiset() == s.to_multiset()
}

/// `sorted_pairs` is a sorted arrangement of its input.
pub proof fn sorted_pairs_sorts(s: Seq<(i64, Seq<char>)>)
    ensures
        sorted_by(sorted_pairs(s), pair_le_fn()),
        sorted_pairs(s).to_multiset() == s.to_multiset(),
{
    pair_le_is_total();
    s.lemma_sort_by_ensures(pair_le_fn());
    let w = s.sort_by(pair_le_fn());
    assert(sorted_by(w, pair_le_fn()) && w.to_multiset() == s.to_multiset());
}

/// Numbers paired with the characters of their strings.
pub open spec fn pair_views(v: Seq<(i64, String)>) -> Seq<(i64, Seq<char>)> {
    Seq::new(v.len(), |i: int| (v[i].0, v[i].1@))
}

fn pair_less(a: &(i64, String), b: &(i64, String)) -> (r: bool)
    ensures
        r == !pair_le((b.0, b.1@), (a.0, a.1@)),
{
    if a.0 != b.0 {
        a.0 < b.0
    } else {
        proof {
            lemma_lex_total(a.1@, b.1@);
            lemma_lex_irreflexive(a.1@);
        }
        lex_less(a.1.as_str(), b.1.as_str())
    }
}

/// Sorts pairs by their number, then their text.
pub fn sort_pairs(v: Vec<(i64, String)>) -> (r: Vec<(i64, String)>)
    ensures
        pair_views(r@) == sorted_pairs(pair_views(v@)),
        sorted_by(pair_views(r@), pair_le_fn()),
        pair_views(r@).to_multiset() == pair_views(v@).to_multiset(),
{
    broadcast use vstd::seq_lib::group_to_multiset_ensures;
    let mut out: Vec<(i64, String)> = Vec::new();
    let mut rest = v;
    let ghost all = pair_views(rest@);
    let mut i: usize = 0;
    assert(all.take(0) =~= Seq::<(i64, Seq<char>)>::empty());
    assert(pair_views(out@) =~= Seq::<(i64, Seq<char>)>::empty());
    while i < rest.len()
        invariant
            i <= rest@.len(),
            all == pair_views(rest@),
            sorted_by(pair_views(out@), pair_le_fn()),
            pair_views(out@).to_multiset() == all.take(i as int).to_multiset(),
        decreases rest.len() - i,
    {
        let x = (rest[i].0, rest[i].1.clone());
        let ghost xv = (x.0, x.1@);
        assert(xv == all[i as int]);
        let mut j: usize = 0;
        while j < out.len() && !pair_less(&x, &out[j])
            invariant
                j <= out@.len(),
                xv == (x.0, x.1@),
                forall|k: int| 0 <= k < j ==> pair_le(#[trigger] pair_views(out@)[k], xv),
            decreases out.len() - j,
        {
            assert(pair_views(out@)[j as int] == (out@[j as int].0, out@[j as int].1@));
            j = j + 1;
        }
        let ghost before = pair_views(out@);
        out.insert(j, x);
        proof {
            assert(pair_views(out@) =~= before.insert(j as int, xv));
            to_multiset_insert(before, j as int, xv);
            assert(all.take(i + 1) =~= all.take(i as int).push(xv));
            to_multiset_build(all.take(i as int), xv);
            pair_le_is_total();
            let after = pair_views(out@);
            if j < before.len() {
                assert(before[j as int] == (out@[j as int + 1].0, out@[j as int + 1].1@));
                assert(!pair_le(before[j as int], xv));
            }
            assert forall|a: int, b: int| 0 <= a < b < after.len() implies #[trigger] pair_le_fn()(
                after[a],
                after[b],
            ) by {
                if a < j && b < j {
                    assert(pair_le_fn()(before[a], before[b]));
                } else if a < j && b == j {
                } else if a < j && b > j {
                    assert(pair_le_fn()(before[a], before[b - 1]));
                } else if a == j {
                    assert(pair_le_fn()(before[j as int], xv) || pair_le_fn()(xv, before[j as int]));
                    assert(pair_le_fn()(xv, before[j as int]));
                    if b - 1 > j {
                        assert(pair_le_fn()(before[j as int], before[b - 1]));
                    }
                } else {
                    assert(pair_le_fn()(before[a - 1], before[b - 1]));
                }
            }
        }
        i = i + 1;
    }
    proof {
        assert(all.take(i as int) =~= all);
        let u = sorted_pairs(all);
        assert(sorted_by(u, pair_le_fn()) && u.to_multiset() == all.to_multiset());
        pair_le_is_total();
        lemma_sorted_unique(pair_views(out@), u, pair_le_fn());
    }
    out
}

} // verus!
