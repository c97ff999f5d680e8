//! The first position that satisfies a condition, as a spec function, and the
//! facts a linear scan needs about it.

use vstd::prelude::*;

verus! {

/// The first of the positions `0..n` at which `p` holds, if any.
pub open spec fn first_where(n: int, p: spec_fn(int) -> bool) -> Option<int>
    decreases n,
{
    if n <= 0 {
        None
    } else {
        match first_where(n - 1, p) {
            Some(k) => Some(k),
            None => if p(n - 1) {
                Some(n - 1)
            } else {
                None
            },
        }
    }
}

/// A scan that found nothing in `0..i` and finds `p` at `i` has found the
/// first position for every longer range.
pub proof fn lemma_first_found(p: spec_fn(int) -> bool, i: int, n: int)
    requires
        0 <= i < n,
        first_where(i, p) is None,
        p(i),
    ensures
        first_where(n, p) == Some(i),
    decreases n - i,
{
    if n > i + 1 {
        lemma_first_found(p, i, n - 1);
    }
}

/// What `first_where` finds is in range and satisfies `p`; when it finds
/// nothing, nothing in range satisfies `p`.
pub proof fn lemma_first_where(p: spec_fn(int) -> bool, n: int)
    ensures
        first_where(n, p) matches Some(k) ==> 0 <= k < n && p(k) && forall|j: int|
            0 <= j < k ==> !#[trigger] p(j),
        first_where(n, p) is None ==> forall|j: int| 0 <= j < n ==> !#[trigger] p(j),
    decreases n,
{
    if n > 0 {
        lemma_first_where(p, n - 1);
    }
}

} // verus!
