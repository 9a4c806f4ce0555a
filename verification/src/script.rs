//! The mutations that a reconciliation asks of the rendering target, and the
//! scripts that the two reconcilers are defined to produce.
//!
//! A script is carried out front to back. The target keeps one insertion
//! anchor: each node that is created or patched becomes the anchor of the
//! steps behind it, so a script always names nodes from right to left.
use vstd::prelude::*;
use crate::keys::{match_prefix, match_suffix, Key};

verus! {

/// One mutation. `node` is a position in the new list, `ancestor` a position
/// in the list that was rendered before.
#[derive(Clone, Copy, Debug, PartialEq, Eq, Structural)]
pub enum Step {
    /// Render the new node from nothing, immediately before the anchor.
    Create { node: usize },
    /// Let the new node take over what was rendered for the ancestor. With
    /// `moved` set, what was rendered is first relocated to sit immediately
    /// before the anchor.
    Patch { node: usize, ancestor: usize, moved: bool },
    /// Remove what was rendered for the ancestor.
    Detach { ancestor: usize },
}

impl Step {
    /// Whether the step relocates a rendered node.
    pub open spec fn is_move(self) -> bool {
        match self {
            Step::Patch { moved, .. } => moved,
            _ => false,
        }
    }

    /// The new position that the step renders, if it renders one.
    pub open spec fn target(self) -> Option<int> {
        match self {
            Step::Create { node } => Some(node as int),
            Step::Patch { node, .. } => Some(node as int),
            Step::Detach { .. } => None,
        }
    }

    /// The old position whose node the step uses up, if it uses one up.
    pub open spec fn origin(self) -> Option<int> {
        match self {
            Step::Create { .. } => None,
            Step::Patch { ancestor, .. } => Some(ancestor as int),
            Step::Detach { ancestor } => Some(ancestor as int),
        }
    }

    /// The patch of new position `i` from old position `j`, in place.
    pub open spec fn keep(i: int, j: int) -> Step {
        Step::Patch { node: i as usize, ancestor: j as usize, moved: false }
    }
}

/// What positional reconciliation does at position `i`, for `n` new nodes
/// and `m` old ones: a position that both lists have is patched in place, one
/// that only the new list has is created, one that only the old list has is
/// detached.
pub open spec fn unkeyed_step(n: int, m: int, i: int) -> Step {
    if i >= m {
        Step::Create { node: i as usize }
    } else if i >= n {
        Step::Detach { ancestor: i as usize }
    } else {
        Step::keep(i, i)
    }
}

/// The script of positional reconciliation for `n` new nodes and `m` old
/// ones: every position of the longer list, from the last to the first.
pub open spec fn unkeyed_script(n: int, m: int) -> Seq<Step> {
    let len = if n >= m { n } else { m };
    Seq::new(len as nat, |t: int| unkeyed_step(n, m, len - 1 - t))
}

/// Whether `k` stands in `keys` at some position from `lo` up to, not
/// including, `hi`.
pub open spec fn occurs(keys: Seq<Key>, lo: int, hi: int, k: Key) -> bool {
    exists|i: int| lo <= i < hi && 0 <= i < keys.len() && #[trigger] keys[i] == k
}

/// The leftmost position from `lo` up to `hi` at which `keys` holds `k`, or
/// `hi` if there is none.
pub open spec fn leftmost(keys: Seq<Key>, lo: int, hi: int, k: Key) -> int
    decreases hi - lo,
{
    if lo >= hi {
        hi
    } else if keys[lo] == k {
        lo
    } else {
        leftmost(keys, lo + 1, hi, k)
    }
}

/// Within a range that holds `k`, the leftmost position of `k` lies in the
/// range, holds `k`, and nothing to its left in the range does.
pub proof fn lemma_leftmost(keys: Seq<Key>, lo: int, hi: int, k: Key)
    requires
        0 <= lo <= hi <= keys.len(),
    ensures
        lo <= leftmost(keys, lo, hi, k) <= hi,
        occurs(keys, lo, hi, k) <==> leftmost(keys, lo, hi, k) < hi,
        leftmost(keys, lo, hi, k) < hi ==> keys[leftmost(keys, lo, hi, k)] == k,
        forall|i: int| lo <= i < leftmost(keys, lo, hi, k) ==> keys[i] != k,
    decreases hi - lo,
{
    if lo < hi && keys[lo] != k {
        lemma_leftmost(keys, lo + 1, hi, k);
        if occurs(keys, lo, hi, k) {
            let i = choose|i: int| lo <= i < hi && 0 <= i < keys.len() && #[trigger] keys[i] == k;
            assert(lo + 1 <= i < hi && keys[i] == k);
        }
    } else if lo < hi {
        assert(keys[lo] == k);
    }
}

/// The three zones that a keyed reconciliation divides both lists into: a
/// head of `prefix` positions and a tail of `suffix` positions, in each of
/// which the two lists hold the same keys, and between them a middle, which
/// ends at `new_end` in the new list and at `old_end` in the old one.
pub struct Zones {
    pub prefix: int,
    pub suffix: int,
    pub new_end: int,
    pub old_end: int,
}

/// The zones of `news` against `olds`.
pub open spec fn zones(news: Seq<Key>, olds: Seq<Key>) -> Zones {
    let prefix = match_prefix(news, olds);
    let suffix = match_suffix(news, olds, prefix);
    Zones { prefix, suffix, new_end: news.len() - suffix, old_end: olds.len() - suffix }
}

/// The old middle position whose node the new middle position `i` takes
/// over, if any. A key is looked up among the old middle keys, where the
/// leftmost of equal keys answers for all of them, and each answer is given
/// once: to the rightmost position of the new middle that asks for it.
pub open spec fn source(news: Seq<Key>, olds: Seq<Key>, z: Zones, i: int) -> Option<int> {
    if occurs(olds, z.prefix, z.old_end, news[i]) && !occurs(news, i + 1, z.new_end, news[i]) {
        Some(leftmost(olds, z.prefix, z.old_end, news[i]))
    } else {
        None
    }
}

/// Whether the node taken over from old position `j` by new position `i`
/// keeps its right-hand neighbour: both have one within the middle, and the
/// two neighbours bear the same key.
pub open spec fn stays(news: Seq<Key>, olds: Seq<Key>, z: Zones, i: int, j: int) -> bool {
    j + 1 < z.old_end && i + 1 < z.new_end && olds[j + 1] == news[i + 1]
}

/// What keyed reconciliation does for the new middle position `i`.
pub open spec fn middle_step(news: Seq<Key>, olds: Seq<Key>, z: Zones, i: int) -> Step {
    match source(news, olds, z, i) {
        Some(j) => Step::Patch {
            node: i as usize,
            ancestor: j as usize,
            moved: !stays(news, olds, z, i, j),
        },
        None => Step::Create { node: i as usize },
    }
}

/// Whether the node at the old middle position `j` is taken over by some
/// node of the new middle.
pub open spec fn claimed(news: Seq<Key>, olds: Seq<Key>, z: Zones, j: int) -> bool {
    leftmost(olds, z.prefix, z.old_end, olds[j]) == j && occurs(
        news,
        z.prefix,
        z.new_end,
        olds[j],
    )
}

/// `c` patches in place, of the new positions from `i` down and the old
/// positions from `j` down.
pub open spec fn keeps(i: int, j: int, c: int) -> Seq<Step> {
    Seq::new(c as nat, |t: int| Step::keep(i - t, j - t))
}

/// The creation of `c` nodes, of the new positions from `i` down.
pub open spec fn makes(i: int, c: int) -> Seq<Step> {
    Seq::new(c as nat, |t: int| Step::Create { node: (i - t) as usize })
}

/// The detachment of `c` old nodes, of the old positions from `j` down.
pub open spec fn drops(j: int, c: int) -> Seq<Step> {
    Seq::new(c as nat, |t: int| Step::Detach { ancestor: (j - t) as usize })
}

/// The patches of the tail zone, from the last position to the first.
pub open spec fn tail_steps(n: int, m: int, z: Zones) -> Seq<Step> {
    keeps(n - 1, m - 1, z.suffix)
}

/// The steps of the new middle zone, from its last position to its first.
pub open spec fn middle_steps(news: Seq<Key>, olds: Seq<Key>, z: Zones) -> Seq<Step> {
    Seq::new(
        (z.new_end - z.prefix) as nat,
        |t: int| middle_step(news, olds, z, z.new_end - 1 - t),
    )
}

/// The positions of the old middle zone, from its last to its first.
pub open spec fn old_middle(z: Zones) -> Seq<int> {
    Seq::new((z.old_end - z.prefix) as nat, |t: int| z.old_end - 1 - t)
}

/// The test that an old middle position is left over: no new node took its
/// node over.
pub open spec fn unclaimed(news: Seq<Key>, olds: Seq<Key>, z: Zones) -> spec_fn(int) -> bool {
    |j: int| !claimed(news, olds, z, j)
}

/// The detachment of each old position.
pub open spec fn detachment() -> spec_fn(int) -> Step {
    |j: int| Step::Detach { ancestor: j as usize }
}

/// The detachments that close the middle zone: every old middle node that no
/// new node took over, from right to left.
pub open spec fn cleanup_steps(news: Seq<Key>, olds: Seq<Key>, z: Zones) -> Seq<Step> {
    old_middle(z).filter(unclaimed(news, olds, z)).map_values(detachment())
}

/// The patches of the head zone, from its last position to its first.
pub open spec fn head_steps(z: Zones) -> Seq<Step> {
    keeps(z.prefix - 1, z.prefix - 1, z.prefix)
}

/// The script of keyed reconciliation for new nodes with the keys `news`
/// against old nodes with the keys `olds`.
///
/// Where the shorter list is a prefix of the longer one, nothing was
/// reordered and the script is the positional one. Otherwise it is, in this
/// order: the tail patched in place, the new middle patched or created, what
/// is left of the old middle detached, the head patched in place.
pub open spec fn keyed_script(news: Seq<Key>, olds: Seq<Key>) -> Seq<Step> {
    let n = news.len() as int;
    let m = olds.len() as int;
    let z = zones(news, olds);
    if z.prefix == n || z.prefix == m {
        unkeyed_script(n, m)
    } else {
        tail_steps(n, m, z) + middle_steps(news, olds, z) + cleanup_steps(news, olds, z)
            + head_steps(z)
    }
}

/// Whether some step of `script` renders new position `i`.
pub open spec fn renders(script: Seq<Step>, i: int) -> bool {
    exists|t: int| 0 <= t < script.len() && (#[trigger] script[t]).target() == Some(i)
}

/// Whether some step of `script` uses up old position `j`.
pub open spec fn consumes(script: Seq<Step>, j: int) -> bool {
    exists|t: int| 0 <= t < script.len() && (#[trigger] script[t]).origin() == Some(j)
}

/// Whether some step of `script` patches new position `i` from old
/// position `j`.
pub open spec fn patches(script: Seq<Step>, i: int, j: int) -> bool {
    exists|t: int|
        0 <= t < script.len() && (#[trigger] script[t]).target() == Some(i) && script[t].origin()
            == Some(j)
}

/// Whether `script` deals with each of `n` new nodes and each of `m` old
/// nodes exactly once: every new position is rendered by one step and one
/// only, every old position is used up by one step and one only, and no step
/// names a position beyond the lists.
pub open spec fn exact(script: Seq<Step>, n: int, m: int) -> bool {
    &&& forall|t: int|
        0 <= t < script.len() ==> ((#[trigger] script[t]).target() matches Some(i) ==> 0 <= i < n)
    &&& forall|t: int|
        0 <= t < script.len() ==> ((#[trigger] script[t]).origin() matches Some(j) ==> 0 <= j < m)
    &&& forall|i: int| 0 <= i < n ==> #[trigger] renders(script, i)
    &&& forall|j: int| 0 <= j < m ==> #[trigger] consumes(script, j)
    &&& forall|t: int, u: int|
        0 <= t < script.len() && 0 <= u < script.len() && t != u && (#[trigger] script[t]).target()
            is Some ==> script[t].target() != (#[trigger] script[u]).target()
    &&& forall|t: int, u: int|
        0 <= t < script.len() && 0 <= u < script.len() && t != u && (#[trigger] script[t]).origin()
            is Some ==> script[t].origin() != (#[trigger] script[u]).origin()
}

/// The number of relocations in `script`.
pub open spec fn moves(script: Seq<Step>) -> nat {
    script.filter(|s: Step| s.is_move()).len()
}

} // verus!
