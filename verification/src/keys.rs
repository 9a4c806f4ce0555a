//! Identity keys and the common prefix and suffix of two key sequences.
use vstd::prelude::*;

verus! {

/// An identity key: two nodes are the same logical element across renders
/// exactly when their keys are equal.
pub type Key = u64;

/// The first index at or after `i` where `a` and `b` differ or one of them ends.
pub open spec fn prefix_from(a: Seq<Key>, b: Seq<Key>, i: int) -> int
    decreases a.len() - i,
{
    if 0 <= i < a.len() && i < b.len() && a[i] == b[i] {
        prefix_from(a, b, i + 1)
    } else {
        i
    }
}

/// Length of the longest common prefix of `a` and `b`.
pub open spec fn match_prefix(a: Seq<Key>, b: Seq<Key>) -> int {
    prefix_from(a, b, 0)
}

/// The least `t >= from` such that the elements `t` places before the end of
/// `a` and of `b` differ, or such that one of the two has fewer than `t + 1`
/// elements after its first `skip`.
pub open spec fn suffix_from(a: Seq<Key>, b: Seq<Key>, skip: int, t: int) -> int
    decreases a.len() - skip - t,
{
    if 0 <= t && skip + t < a.len() && skip + t < b.len() && a[a.len() - 1 - t] == b[b.len() - 1
        - t] {
        suffix_from(a, b, skip, t + 1)
    } else {
        t
    }
}

/// Length of the longest common suffix of `a` and `b` once the first `skip`
/// elements of each are set aside.
pub open spec fn match_suffix(a: Seq<Key>, b: Seq<Key>, skip: int) -> int {
    suffix_from(a, b, skip, 0)
}

/// `n` is the length of the longest common prefix of `a` and `b`.
pub open spec fn is_match_prefix(a: Seq<Key>, b: Seq<Key>, n: int) -> bool {
    &&& 0 <= n <= a.len()
    &&& n <= b.len()
    &&& forall|i: int| 0 <= i < n ==> a[i] == b[i]
    &&& (n < a.len() && n < b.len() ==> a[n] != b[n])
}

/// `n` is the length of the longest common suffix of `a` and `b` that stays
/// clear of the first `skip` elements of each.
pub open spec fn is_match_suffix(a: Seq<Key>, b: Seq<Key>, skip: int, n: int) -> bool {
    &&& 0 <= n
    &&& skip + n <= a.len()
    &&& skip + n <= b.len()
    &&& forall|i: int| a.len() - n <= i < a.len() ==> #[trigger] a[i] == b[i - a.len() + b.len()]
    &&& (skip + n < a.len() && skip + n < b.len() ==> a[a.len() - 1 - n] != b[b.len() - 1 - n])
}

proof fn lemma_prefix_from(a: Seq<Key>, b: Seq<Key>, i: int)
    requires
        0 <= i <= a.len(),
        i <= b.len(),
        forall|k: int| 0 <= k < i ==> a[k] == b[k],
    ensures
        is_match_prefix(a, b, prefix_from(a, b, i)),
        prefix_from(a, b, i) >= i,
    decreases a.len() - i,
{
    if i < a.len() && i < b.len() && a[i] == b[i] {
        lemma_prefix_from(a, b, i + 1);
    }
}

proof fn lemma_suffix_from(a: Seq<Key>, b: Seq<Key>, skip: int, t: int)
    requires
        0 <= skip,
        0 <= t,
        skip + t <= a.len(),
        skip + t <= b.len(),
        forall|i: int| a.len() - t <= i < a.len() ==> #[trigger] a[i] == b[i - a.len() + b.len()],
    ensures
        is_match_suffix(a, b, skip, suffix_from(a, b, skip, t)),
        suffix_from(a, b, skip, t) >= t,
    decreases a.len() - skip - t,
{
    if skip + t < a.len() && skip + t < b.len() && a[a.len() - 1 - t] == b[b.len() - 1 - t] {
        lemma_suffix_from(a, b, skip, t + 1);
    }
}

/// The longest common prefix is a common prefix, and no longer one exists.
pub proof fn lemma_match_prefix(a: Seq<Key>, b: Seq<Key>)
    ensures
        is_match_prefix(a, b, match_prefix(a, b)),
{
    lemma_prefix_from(a, b, 0);
}

/// The longest common suffix behind `skip` is a common suffix, and no longer
/// one exists.
pub proof fn lemma_match_suffix(a: Seq<Key>, b: Seq<Key>, skip: int)
    requires
        0 <= skip <= a.len(),
        skip <= b.len(),
    ensures
        is_match_suffix(a, b, skip, match_suffix(a, b, skip)),
{
    lemma_suffix_from(a, b, skip, 0);
}

/// Only one number is the length of the longest common suffix behind `skip`.
pub proof fn lemma_match_suffix_unique(a: Seq<Key>, b: Seq<Key>, skip: int, n: int)
    requires
        0 <= skip <= a.len(),
        skip <= b.len(),
        is_match_suffix(a, b, skip, n),
    ensures
        n == match_suffix(a, b, skip),
{
    lemma_match_suffix(a, b, skip);
    let m = match_suffix(a, b, skip);
    if n < m {
        assert(a[a.len() - 1 - n] == b[b.len() - 1 - n]);
    } else if m < n {
        assert(a[a.len() - 1 - m] == b[b.len() - 1 - m]);
    }
}

/// Counts the leading positions at which `a` and `b` hold equal keys,
/// stopping at the first mismatch.
pub fn matching_len(a: &Vec<Key>, b: &Vec<Key>) -> (n: usize)
    ensures
        n == match_prefix(a@, b@),
        is_match_prefix(a@, b@, n as int),
{
    let mut i: usize = 0;
    while i < a.len() && i < b.len() && a[i] == b[i]
        invariant
            0 <= i <= a.len(),
            i <= b.len(),
            prefix_from(a@, b@, i as int) == match_prefix(a@, b@),
        decreases a.len() - i,
    {
        i += 1;
    }
    proof {
        lemma_match_prefix(a@, b@);
    }
    i
}

/// Counts the trailing positions at which `a` and `b` hold equal keys,
/// stopping at the first mismatch and never reaching into the first `skip`
/// elements of either.
pub fn matching_len_rev(a: &Vec<Key>, b: &Vec<Key>, skip: usize) -> (n: usize)
    requires
        skip <= a.len(),
        skip <= b.len(),
    ensures
        n == match_suffix(a@, b@, skip as int),
        is_match_suffix(a@, b@, skip as int, n as int),
{
    let mut t: usize = 0;
    while t < a.len() - skip && t < b.len() - skip && a[a.len() - 1 - t] == b[b.len() - 1 - t]
        invariant
            skip <= a.len(),
            skip <= b.len(),
            0 <= t <= a.len() - skip,
            t <= b.len() - skip,
            suffix_from(a@, b@, skip as int, t as int) == match_suffix(a@, b@, skip as int),
        decreases a.len() - skip - t,
    {
        t += 1;
    }
    proof {
        lemma_match_suffix(a@, b@, skip as int);
    }
    t
}

} // verus!
