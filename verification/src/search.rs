//! The first place a check fails: the search every validation here reports
//! its error from.
use vstd::prelude::*;

verus! {

/// The first place in `i..n` where `p` holds, or `n` where it holds nowhere.
pub open spec fn first_where(p: spec_fn(int) -> bool, i: int, n: int) -> int
    decreases n - i,
{
    if i >= n {
        n
    } else if p(i) {
        i
    } else {
        first_where(p, i + 1, n)
    }
}

/// Places where `p` fails can be skipped in search of the first.
pub proof fn lemma_first_where(p: spec_fn(int) -> bool, i: int, k: int, n: int)
    requires
        0 <= i <= k <= n,
        forall|j: int| i <= j < k ==> !#[trigger] p(j),
    ensures
        first_where(p, i, n) == first_where(p, k, n),
        first_where(p, i, n) <= n,
        k < n && p(k) ==> first_where(p, i, n) == k,
    decreases k - i,
{
    if i < k {
        lemma_first_where(p, i + 1, k, n);
    }
    lemma_first_where_bound(p, k, n);
}

pub proof fn lemma_first_where_floor(p: spec_fn(int) -> bool, k: int, n: int)
    requires
        0 <= k,
    ensures
        k <= n ==> k <= first_where(p, k, n),
        k > n ==> first_where(p, k, n) == n,
    decreases n - k,
{
    if k < n {
        lemma_first_where_floor(p, k + 1, n);
    }
}

pub proof fn lemma_first_where_bound(p: spec_fn(int) -> bool, k: int, n: int)
    requires
        k <= n,
    ensures
        first_where(p, k, n) <= n,
    decreases n - k,
{
    if k < n {
        lemma_first_where_bound(p, k + 1, n);
    }
}

} // verus!

verus! {

/// Where the search finds nothing, every place fails the check.
pub proof fn lemma_first_where_none(p: spec_fn(int) -> bool, i: int, n: int)
    requires
        i <= n,
        first_where(p, i, n) == n,
    ensures
        forall|k: int| i <= k < n ==> !#[trigger] p(k),
    decreases n - i,
{
    if i < n {
        assert(!p(i));
        lemma_first_where_none(p, i + 1, n);
    }
}

} // verus!
