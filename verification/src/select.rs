//! Choosing the nearest of several candidates.
//!
//! Every stage of the library makes the same kind of choice: scan candidates
//! in index order and keep the one with the smallest key, moving on only
//! when a key is strictly smaller, so that of equal keys the earliest wins.

use vstd::prelude::*;

verus! {

/// The index, among the first `n` keys, of the smallest; of equal smallest
/// keys, the earliest. `0` when `n` is not positive.
pub open spec fn first_min(keys: Seq<int>, n: int) -> int
    decreases n,
{
    if n <= 1 {
        0
    } else {
        let best = first_min(keys, n - 1);
        if keys[n - 1] < keys[best] {
            n - 1
        } else {
            best
        }
    }
}

/// `first_min` names a key that no other of the first `n` undercuts and that
/// no earlier one equals.
pub proof fn lemma_first_min(keys: Seq<int>, n: int)
    requires
        0 < n <= keys.len(),
    ensures
        0 <= first_min(keys, n) < n,
        forall|j: int| 0 <= j < n ==> keys[first_min(keys, n)] <= #[trigger] keys[j],
        forall|j: int|
            0 <= j < first_min(keys, n) ==> keys[first_min(keys, n)] < #[trigger] keys[j],
    decreases n,
{
    if n > 1 {
        lemma_first_min(keys, n - 1);
    }
}

/// As `first_min`, but only candidates marked open can be chosen; `None`
/// when none of the first `n` is open.
pub open spec fn first_open_min(keys: Seq<int>, open: Seq<bool>, n: int) -> Option<int>
    decreases n,
{
    if n <= 0 {
        None
    } else {
        match first_open_min(keys, open, n - 1) {
            Some(best) => if open[n - 1] && keys[n - 1] < keys[best] {
                Some(n - 1)
            } else {
                Some(best)
            },
            None => if open[n - 1] {
                Some(n - 1)
            } else {
                None
            },
        }
    }
}

/// `first_open_min` finds nothing exactly when nothing is open; what it
/// finds is open, undercut by no open candidate and equalled by no earlier
/// open one.
pub proof fn lemma_first_open_min(keys: Seq<int>, open: Seq<bool>, n: int)
    requires
        0 <= n <= keys.len(),
        n <= open.len(),
    ensures
        first_open_min(keys, open, n) is None <==> forall|j: int|
            0 <= j < n ==> !#[trigger] open[j],
        first_open_min(keys, open, n) matches Some(b) ==> 0 <= b < n && open[b],
        first_open_min(keys, open, n) matches Some(b) ==> forall|j: int|
            0 <= j < n && #[trigger] open[j] ==> keys[b] <= keys[j],
        first_open_min(keys, open, n) matches Some(b) ==> forall|j: int|
            0 <= j < b && #[trigger] open[j] ==> keys[b] < keys[j],
    decreases n,
{
    if n > 0 {
        lemma_first_open_min(keys, open, n - 1);
    }
}

} // verus!
