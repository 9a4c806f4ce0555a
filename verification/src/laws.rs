//! What holds of every script that the reconcilers produce.
use vstd::prelude::*;
use crate::keys::{
    is_match_prefix, is_match_suffix, lemma_match_prefix, lemma_match_suffix,
    lemma_match_suffix_unique, match_prefix, Key,
};
use crate::script::{
    claimed, cleanup_steps, consumes, drops, exact, keeps, keyed_script, leftmost, lemma_leftmost,
    makes, middle_step, middle_steps, moves, occurs, old_middle, patches, renders, source,
    unclaimed, unkeyed_script, zones, Step, Zones,
};

verus! {

/// A script none of whose steps relocates a node counts no relocation.
pub proof fn lemma_no_moves(script: Seq<Step>)
    requires
        forall|t: int| 0 <= t < script.len() ==> !(#[trigger] script[t]).is_move(),
    ensures
        moves(script) == 0,
{
    let pred = |s: Step| s.is_move();
    let kept = script.filter(pred);
    if kept.len() > 0 {
        script.lemma_filter_pred(pred, 0);
        script.lemma_filter_contains_rev(pred, kept[0]);
        let t = script.index_of(kept[0]);
        assert(script[t] == kept[0]);
    }
}

/// Positional reconciliation never relocates a node.
pub proof fn lemma_unkeyed_never_moves(n: nat, m: nat)
    ensures
        moves(unkeyed_script(n as int, m as int)) == 0,
{
    lemma_no_moves(unkeyed_script(n as int, m as int));
}

/// No-op stability: a list reconciled by key against a list with the same
/// keys in the same order is patched in place, position by position from
/// the right, and nothing is relocated, created or detached.
pub proof fn lemma_same_keys_stay(keys: Seq<Key>)
    ensures
        keyed_script(keys, keys) == Seq::new(
            keys.len(),
            |t: int| Step::keep(keys.len() - 1 - t, keys.len() - 1 - t),
        ),
        moves(keyed_script(keys, keys)) == 0,
{
    lemma_match_prefix(keys, keys);
    let n = keys.len() as int;
    assert(match_prefix(keys, keys) == n);
    assert(keyed_script(keys, keys) =~= Seq::new(
        keys.len(),
        |t: int| Step::keep(keys.len() - 1 - t, keys.len() - 1 - t),
    ));
    lemma_no_moves(keyed_script(keys, keys));
}

/// The script that detaches old position `p` and patches every other old
/// node into the new list of `n` nodes, in place and in order.
pub open spec fn removal_script(n: int, p: int) -> Seq<Step> {
    Seq::new(
        (n + 1) as nat,
        |t: int|
            {
                let j = n - t;
                if j > p {
                    Step::keep(j - 1, j)
                } else if j == p {
                    Step::Detach { ancestor: p as usize }
                } else {
                    Step::keep(j, j)
                }
            },
    )
}

/// The script that creates new position `p` and patches every other new
/// node from the old list of `m` nodes, in place and in order.
pub open spec fn insertion_script(m: int, p: int) -> Seq<Step> {
    Seq::new(
        (m + 1) as nat,
        |t: int|
            {
                let i = m - t;
                if i > p {
                    Step::keep(i, i - 1)
                } else if i == p {
                    Step::Create { node: p as usize }
                } else {
                    Step::keep(i, i)
                }
            },
    )
}

/// The one old middle position `p` is left over when the new middle is empty.
proof fn lemma_cleanup_single(news: Seq<Key>, olds: Seq<Key>, z: Zones)
    requires
        z.new_end == z.prefix,
        z.old_end == z.prefix + 1,
        0 <= z.prefix,
    ensures
        cleanup_steps(news, olds, z) == seq![Step::Detach { ancestor: z.prefix as usize }],
{
    let pred = unclaimed(news, olds, z);
    let none = Seq::<int>::empty();
    assert(old_middle(z) =~= none.push(z.prefix));
    none.lemma_filter_push(z.prefix, pred);
    none.lemma_filter_len(pred);
    assert(none.filter(pred) =~= none);
    assert(!occurs(news, z.prefix, z.new_end, olds[z.prefix]));
    assert(pred(z.prefix));
    assert(cleanup_steps(news, olds, z) =~= seq![Step::Detach { ancestor: z.prefix as usize }]);
}

/// Nothing of the old middle is left over when the old middle is empty.
proof fn lemma_cleanup_none(news: Seq<Key>, olds: Seq<Key>, z: Zones)
    requires
        z.old_end == z.prefix,
    ensures
        cleanup_steps(news, olds, z) == Seq::<Step>::empty(),
{
    let pred = unclaimed(news, olds, z);
    let none = Seq::<int>::empty();
    assert(old_middle(z) =~= none);
    none.lemma_filter_len(pred);
    assert(none.filter(pred) =~= none);
    assert(cleanup_steps(news, olds, z) =~= Seq::<Step>::empty());
}

/// Minimal change on removal: when the new keys are the old keys with one
/// key taken out, wherever it stood, that one old node is detached, every
/// other node is patched in place, and nothing is relocated or created.
pub proof fn lemma_single_removal(a: Seq<Key>, x: Key, b: Seq<Key>)
    ensures
        a.len() <= match_prefix(a + b, a + seq![x] + b) <= a.len() + b.len(),
        keyed_script(a + b, a + seq![x] + b) == removal_script(
            (a + b).len() as int,
            match_prefix(a + b, a + seq![x] + b),
        ),
        moves(keyed_script(a + b, a + seq![x] + b)) == 0,
{
    let news = a + b;
    let olds = a + seq![x] + b;
    let n = news.len() as int;
    let m = olds.len() as int;
    let p = match_prefix(news, olds);
    lemma_match_prefix(news, olds);
    if p < a.len() {
        assert(news[p] == a[p] && olds[p] == a[p]);
    }
    let z = zones(news, olds);
    let script = keyed_script(news, olds);
    let want = removal_script(n, p);
    if p == n {
        assert(script =~= want);
    } else {
        assert forall|i: int| n - (n - p) <= i < n implies #[trigger] news[i] == olds[i - n + m] by {
            assert(news[i] == b[i - a.len()]);
            assert(olds[i + 1] == b[i + 1 - a.len() - 1]);
        }
        assert(is_match_suffix(news, olds, p, n - p));
        lemma_match_suffix_unique(news, olds, p, n - p);
        assert(z.suffix == n - p && z.new_end == p && z.old_end == p + 1);
        lemma_cleanup_single(news, olds, z);
        assert(middle_steps(news, olds, z) =~= Seq::<Step>::empty());
        assert(script =~= want);
    }
    lemma_no_moves(script);
}

/// Minimal change on insertion: when the new keys are the old keys with one
/// key put in, wherever it stands, that one new node is created, every other
/// node is patched in place, and nothing is relocated or detached.
pub proof fn lemma_single_insertion(a: Seq<Key>, x: Key, b: Seq<Key>)
    ensures
        a.len() <= match_prefix(a + seq![x] + b, a + b) <= a.len() + b.len(),
        keyed_script(a + seq![x] + b, a + b) == insertion_script(
            (a + b).len() as int,
            match_prefix(a + seq![x] + b, a + b),
        ),
        moves(keyed_script(a + seq![x] + b, a + b)) == 0,
{
    let news = a + seq![x] + b;
    let olds = a + b;
    let n = news.len() as int;
    let m = olds.len() as int;
    let p = match_prefix(news, olds);
    lemma_match_prefix(news, olds);
    if p < a.len() {
        assert(news[p] == a[p] && olds[p] == a[p]);
    }
    let z = zones(news, olds);
    let script = keyed_script(news, olds);
    let want = insertion_script(m, p);
    if p == m {
        assert(script =~= want);
    } else {
        assert forall|i: int| n - (m - p) <= i < n implies #[trigger] news[i] == olds[i - n + m] by {
            assert(news[i] == b[i - a.len() - 1]);
            assert(olds[i - 1] == b[i - 1 - a.len()]);
        }
        assert(is_match_suffix(news, olds, p, m - p));
        lemma_match_suffix_unique(news, olds, p, m - p);
        assert(z.suffix == m - p && z.new_end == p + 1 && z.old_end == p);
        lemma_cleanup_none(news, olds, z);
        assert(!occurs(olds, z.prefix, z.old_end, news[p]));
        assert(middle_steps(news, olds, z) =~= seq![Step::Create { node: p as usize }]);
        assert(script =~= want);
    }
    lemma_no_moves(script);
}

/// Positional reconciliation deals with every node exactly once.
pub proof fn lemma_unkeyed_exact(n: nat, m: nat)
    requires
        n <= usize::MAX,
        m <= usize::MAX,
    ensures
        exact(unkeyed_script(n as int, m as int), n as int, m as int),
{
    let script = unkeyed_script(n as int, m as int);
    let len = script.len() as int;
    assert forall|i: int| 0 <= i < n implies #[trigger] renders(script, i) by {
        assert(script[len - 1 - i].target() == Some(i));
    }
    assert forall|j: int| 0 <= j < m implies #[trigger] consumes(script, j) by {
        assert(script[len - 1 - j].origin() == Some(j));
    }
}

/// The rightmost position from `lo` up to `hi` at which `keys` holds `k`, or
/// `lo - 1` if there is none.
spec fn rightmost(keys: Seq<Key>, lo: int, hi: int, k: Key) -> int
    decreases hi - lo,
{
    if lo >= hi {
        lo - 1
    } else if keys[hi - 1] == k {
        hi - 1
    } else {
        rightmost(keys, lo, hi - 1, k)
    }
}

/// Within a range that holds `k`, the rightmost position of `k` lies in the
/// range, holds `k`, and nothing to its right in the range does.
proof fn lemma_rightmost(keys: Seq<Key>, lo: int, hi: int, k: Key)
    requires
        0 <= lo <= hi <= keys.len(),
        occurs(keys, lo, hi, k),
    ensures
        lo <= rightmost(keys, lo, hi, k) < hi,
        keys[rightmost(keys, lo, hi, k)] == k,
        !occurs(keys, rightmost(keys, lo, hi, k) + 1, hi, k),
    decreases hi - lo,
{
    let i = choose|i: int| lo <= i < hi && 0 <= i < keys.len() && #[trigger] keys[i] == k;
    if keys[hi - 1] != k {
        assert(lo <= i < hi - 1 && keys[i] == k);
        lemma_rightmost(keys, lo, hi - 1, k);
        let r = rightmost(keys, lo, hi - 1, k);
        if occurs(keys, r + 1, hi, k) {
            let x = choose|x: int| r + 1 <= x < hi && 0 <= x < keys.len() && #[trigger] keys[x] == k;
            assert(r + 1 <= x < hi - 1 && keys[x] == k);
        }
    }
}

/// What is kept of a sequence without duplicates has none.
proof fn lemma_filter_distinct(s: Seq<int>, pred: spec_fn(int) -> bool)
    requires
        s.no_duplicates(),
    ensures
        s.filter(pred).no_duplicates(),
    decreases s.len(),
{
    if s.len() == 0 {
        s.lemma_filter_len(pred);
    } else {
        let front = s.drop_last();
        let x = s.last();
        assert(s =~= front.push(x));
        lemma_filter_distinct(front, pred);
        front.lemma_filter_push(x, pred);
        if front.filter(pred).contains(x) {
            front.lemma_filter_contains_rev(pred, x);
            let i = front.index_of(x);
            assert(front[i] == x && s[i] == x);
        }
    }
}

/// The zones of two lists of which neither is a prefix of the other lie
/// within both lists, and their heads and tails hold the same keys.
pub proof fn lemma_zones(news: Seq<Key>, olds: Seq<Key>)
    ensures
        is_match_prefix(news, olds, zones(news, olds).prefix),
        is_match_suffix(news, olds, zones(news, olds).prefix, zones(news, olds).suffix),
        0 <= zones(news, olds).prefix <= zones(news, olds).new_end <= news.len(),
        zones(news, olds).prefix <= zones(news, olds).old_end <= olds.len(),
{
    lemma_match_prefix(news, olds);
    lemma_match_suffix(news, olds, match_prefix(news, olds));
}

/// The old middle node that a new middle node takes over bears the same
/// key and is taken over by a new node.
proof fn lemma_source(news: Seq<Key>, olds: Seq<Key>, i: int)
    requires
        zones(news, olds).prefix <= i < zones(news, olds).new_end,
    ensures
        source(news, olds, zones(news, olds), i) matches Some(j) ==> zones(news, olds).prefix <= j
            < zones(news, olds).old_end && olds[j] == news[i] && claimed(
            news,
            olds,
            zones(news, olds),
            j,
        ),
{
    let z = zones(news, olds);
    lemma_zones(news, olds);
    lemma_leftmost(olds, z.prefix, z.old_end, news[i]);
    if source(news, olds, z, i) is Some {
        let j = leftmost(olds, z.prefix, z.old_end, news[i]);
        assert(news[i] == olds[j]);
    }
}

/// An old middle node that is taken over is taken over by one new middle
/// node: the rightmost with its key.
proof fn lemma_claimed(news: Seq<Key>, olds: Seq<Key>, j: int)
    requires
        zones(news, olds).prefix <= j < zones(news, olds).old_end,
        claimed(news, olds, zones(news, olds), j),
    ensures
        zones(news, olds).prefix <= rightmost(
            news,
            zones(news, olds).prefix,
            zones(news, olds).new_end,
            olds[j],
        ) < zones(news, olds).new_end,
        source(
            news,
            olds,
            zones(news, olds),
            rightmost(news, zones(news, olds).prefix, zones(news, olds).new_end, olds[j]),
        ) == Some(j),
{
    let z = zones(news, olds);
    lemma_zones(news, olds);
    lemma_rightmost(news, z.prefix, z.new_end, olds[j]);
    let r = rightmost(news, z.prefix, z.new_end, olds[j]);
    assert(occurs(olds, z.prefix, z.old_end, news[r])) by {
        assert(olds[j] == news[r]);
    }
}

/// What the detachments that close the middle zone are: one for each old
/// middle node that no new node took over, and no two for one node.
proof fn lemma_cleanup(news: Seq<Key>, olds: Seq<Key>)
    ensures
        cleanup_steps(news, olds, zones(news, olds)).len() == old_middle(
            zones(news, olds),
        ).filter(unclaimed(news, olds, zones(news, olds))).len(),
        old_middle(zones(news, olds)).filter(
            unclaimed(news, olds, zones(news, olds)),
        ).no_duplicates(),
        forall|q: int|
            0 <= q < cleanup_steps(news, olds, zones(news, olds)).len() ==> {
                let j = old_middle(zones(news, olds)).filter(
                    unclaimed(news, olds, zones(news, olds)),
                )[q];
                &&& #[trigger] cleanup_steps(news, olds, zones(news, olds))[q] == Step::Detach {
                    ancestor: j as usize,
                }
                &&& zones(news, olds).prefix <= j < zones(news, olds).old_end
                &&& !claimed(news, olds, zones(news, olds), j)
            },
        forall|j: int|
            zones(news, olds).prefix <= j < zones(news, olds).old_end && !claimed(
                news,
                olds,
                zones(news, olds),
                j,
            ) ==> #[trigger] old_middle(zones(news, olds)).filter(
                unclaimed(news, olds, zones(news, olds)),
            ).contains(j),
{
    let z = zones(news, olds);
    let pred = unclaimed(news, olds, z);
    let all = old_middle(z);
    let left = all.filter(pred);
    lemma_zones(news, olds);
    lemma_filter_distinct(all, pred);
    assert forall|q: int| 0 <= q < left.len() implies z.prefix <= left[q] < z.old_end && !claimed(
        news,
        olds,
        z,
        left[q],
    ) by {
        all.lemma_filter_pred(pred, q);
        assert(left.contains(left[q]));
        all.lemma_filter_contains_rev(pred, left[q]);
        let x = all.index_of(left[q]);
        assert(all[x] == left[q]);
    }
    assert forall|j: int| z.prefix <= j < z.old_end && !claimed(news, olds, z, j) implies left.contains(
        j,
    ) by {
        let x = z.old_end - 1 - j;
        assert(all[x] == j);
        all.lemma_filter_contains(pred, x);
    }
}

/// The four parts of a keyed script, step by step.
proof fn lemma_keyed_parts(news: Seq<Key>, olds: Seq<Key>)
    requires
        zones(news, olds).prefix != news.len(),
        zones(news, olds).prefix != olds.len(),
    ensures
        ({
            let z = zones(news, olds);
            let script = keyed_script(news, olds);
            let mid = z.new_end - z.prefix;
            let left = cleanup_steps(news, olds, z);
            &&& script.len() == z.suffix + mid + left.len() + z.prefix
            &&& forall|t: int|
                0 <= t < z.suffix ==> #[trigger] script[t] == Step::keep(
                    news.len() - 1 - t,
                    olds.len() - 1 - t,
                )
            &&& forall|t: int|
                z.suffix <= t < z.suffix + mid ==> #[trigger] script[t] == middle_step(
                    news,
                    olds,
                    z,
                    z.new_end - 1 - (t - z.suffix),
                )
            &&& forall|t: int|
                z.suffix + mid <= t < z.suffix + mid + left.len() ==> #[trigger] script[t]
                    == left[t - z.suffix - mid]
            &&& forall|t: int|
                z.suffix + mid + left.len() <= t < script.len() ==> #[trigger] script[t]
                    == Step::keep(script.len() - 1 - t, script.len() - 1 - t)
        }),
{
    lemma_zones(news, olds);
}

/// What step `t` of a keyed script renders and uses up, by the part of the
/// script that it stands in.
spec fn part_facts(news: Seq<Key>, olds: Seq<Key>, t: int) -> bool {
    let n = news.len() as int;
    let m = olds.len() as int;
    let z = zones(news, olds);
    let script = keyed_script(news, olds);
    let s = z.suffix;
    let mid = z.new_end - z.prefix;
    let kept = old_middle(z).filter(unclaimed(news, olds, z));
    let c = kept.len() as int;
    let len = script.len() as int;
    &&& len == s + mid + c + z.prefix
    &&& (t < s ==> script[t].target() == Some(n - 1 - t) && script[t].origin() == Some(m - 1 - t))
    &&& (s <= t < s + mid ==> script[t].target() == Some(z.new_end - 1 - (t - s))
        && (script[t].origin() matches Some(j) ==> z.prefix <= j < z.old_end && claimed(
        news,
        olds,
        z,
        j,
    ) && source(news, olds, z, z.new_end - 1 - (t - s)) == Some(j)))
    &&& (s + mid <= t < s + mid + c ==> script[t].target() is None && script[t].origin() == Some(
        kept[t - s - mid],
    ) && z.prefix <= kept[t - s - mid] < z.old_end && !claimed(news, olds, z, kept[t - s - mid]))
    &&& (s + mid + c <= t ==> script[t].target() == Some(len - 1 - t) && script[t].origin() == Some(
        len - 1 - t,
    ))
}

proof fn lemma_part_facts(news: Seq<Key>, olds: Seq<Key>, t: int)
    requires
        news.len() <= usize::MAX,
        olds.len() <= usize::MAX,
        zones(news, olds).prefix != news.len(),
        zones(news, olds).prefix != olds.len(),
        0 <= t < keyed_script(news, olds).len(),
    ensures
        part_facts(news, olds, t),
{
    let z = zones(news, olds);
    let script = keyed_script(news, olds);
    lemma_zones(news, olds);
    lemma_keyed_parts(news, olds);
    lemma_cleanup(news, olds);
    let s = z.suffix;
    let mid = z.new_end - z.prefix;
    let left = cleanup_steps(news, olds, z);
    let c = left.len() as int;
    if s <= t < s + mid {
        lemma_source(news, olds, z.new_end - 1 - (t - s));
    }
    if s + mid <= t < s + mid + c {
        assert(script[t] == left[t - s - mid]);
    }
}

proof fn lemma_keyed_renders(news: Seq<Key>, olds: Seq<Key>, i: int)
    requires
        news.len() <= usize::MAX,
        olds.len() <= usize::MAX,
        zones(news, olds).prefix != news.len(),
        zones(news, olds).prefix != olds.len(),
        0 <= i < news.len(),
    ensures
        renders(keyed_script(news, olds), i),
{
    let n = news.len() as int;
    let z = zones(news, olds);
    let script = keyed_script(news, olds);
    lemma_zones(news, olds);
    lemma_keyed_parts(news, olds);
    let t = if i >= z.new_end {
        n - 1 - i
    } else if i >= z.prefix {
        z.suffix + (z.new_end - 1 - i)
    } else {
        script.len() - 1 - i
    };
    lemma_part_facts(news, olds, t);
    assert(script[t].target() == Some(i));
}

proof fn lemma_keyed_consumes(news: Seq<Key>, olds: Seq<Key>, j: int)
    requires
        news.len() <= usize::MAX,
        olds.len() <= usize::MAX,
        zones(news, olds).prefix != news.len(),
        zones(news, olds).prefix != olds.len(),
        0 <= j < olds.len(),
    ensures
        consumes(keyed_script(news, olds), j),
{
    let m = olds.len() as int;
    let z = zones(news, olds);
    let script = keyed_script(news, olds);
    let s = z.suffix;
    let mid = z.new_end - z.prefix;
    let kept = old_middle(z).filter(unclaimed(news, olds, z));
    lemma_zones(news, olds);
    lemma_keyed_parts(news, olds);
    lemma_cleanup(news, olds);
    if j >= z.old_end {
        lemma_part_facts(news, olds, m - 1 - j);
        assert(script[m - 1 - j].origin() == Some(j));
    } else if j < z.prefix {
        lemma_part_facts(news, olds, script.len() - 1 - j);
        assert(script[script.len() - 1 - j].origin() == Some(j));
    } else if claimed(news, olds, z, j) {
        lemma_claimed(news, olds, j);
        let i = rightmost(news, z.prefix, z.new_end, olds[j]);
        let t = s + (z.new_end - 1 - i);
        assert(script[t] == middle_step(news, olds, z, i));
        assert(script[t].origin() == Some(j));
    } else {
        assert(kept.contains(j));
        let q = kept.index_of(j);
        assert(kept[q] == j);
        lemma_part_facts(news, olds, s + mid + q);
        assert(script[s + mid + q].origin() == Some(j));
    }
}

proof fn lemma_keyed_distinct(news: Seq<Key>, olds: Seq<Key>, t: int, u: int)
    requires
        news.len() <= usize::MAX,
        olds.len() <= usize::MAX,
        zones(news, olds).prefix != news.len(),
        zones(news, olds).prefix != olds.len(),
        0 <= t < keyed_script(news, olds).len(),
        0 <= u < keyed_script(news, olds).len(),
        t != u,
    ensures
        keyed_script(news, olds)[t].target() is Some ==> keyed_script(news, olds)[t].target()
            != keyed_script(news, olds)[u].target(),
        keyed_script(news, olds)[t].origin() is Some ==> keyed_script(news, olds)[t].origin()
            != keyed_script(news, olds)[u].origin(),
{
    let z = zones(news, olds);
    let script = keyed_script(news, olds);
    let s = z.suffix;
    let mid = z.new_end - z.prefix;
    let kept = old_middle(z).filter(unclaimed(news, olds, z));
    lemma_zones(news, olds);
    lemma_cleanup(news, olds);
    lemma_part_facts(news, olds, t);
    lemma_part_facts(news, olds, u);
    if s <= t < s + mid && s <= u < s + mid && script[t].origin() is Some && script[t].origin()
        == script[u].origin() {
        let it = z.new_end - 1 - (t - s);
        let iu = z.new_end - 1 - (u - s);
        assert(news[it] == news[iu]) by {
            lemma_source(news, olds, it);
            lemma_source(news, olds, iu);
        }
        if it < iu {
            assert(occurs(news, it + 1, z.new_end, news[it])) by {
                assert(news[iu] == news[it]);
            }
        } else {
            assert(occurs(news, iu + 1, z.new_end, news[iu])) by {
                assert(news[it] == news[iu]);
            }
        }
    }
}

/// Ownership under keyed reconciliation: whatever the keys, the script
/// deals with every new node and every old node exactly once. No old node
/// is both taken over and detached, and none is left out, two old nodes
/// with one key included.
pub proof fn lemma_keyed_exact(news: Seq<Key>, olds: Seq<Key>)
    requires
        news.len() <= usize::MAX,
        olds.len() <= usize::MAX,
    ensures
        exact(keyed_script(news, olds), news.len() as int, olds.len() as int),
{
    let n = news.len() as int;
    let m = olds.len() as int;
    let z = zones(news, olds);
    let script = keyed_script(news, olds);
    lemma_zones(news, olds);
    if z.prefix == n || z.prefix == m {
        lemma_unkeyed_exact(news.len(), olds.len());
    } else {
        assert forall|t: int| 0 <= t < script.len() implies ((#[trigger] script[t]).target() matches Some(
            i,
        ) ==> 0 <= i < n) by {
            lemma_part_facts(news, olds, t);
        }
        assert forall|t: int| 0 <= t < script.len() implies ((#[trigger] script[t]).origin() matches Some(
            j,
        ) ==> 0 <= j < m) by {
            lemma_part_facts(news, olds, t);
        }
        assert forall|i: int| 0 <= i < n implies #[trigger] renders(script, i) by {
            lemma_keyed_renders(news, olds, i);
        }
        assert forall|j: int| 0 <= j < m implies #[trigger] consumes(script, j) by {
            lemma_keyed_consumes(news, olds, j);
        }
        assert forall|t: int, u: int|
            0 <= t < script.len() && 0 <= u < script.len() && t != u && (#[trigger] script[t]).target()
                is Some implies script[t].target() != (#[trigger] script[u]).target() by {
            lemma_keyed_distinct(news, olds, t, u);
        }
        assert forall|t: int, u: int|
            0 <= t < script.len() && 0 <= u < script.len() && t != u && (#[trigger] script[t]).origin()
                is Some implies script[t].origin() != (#[trigger] script[u]).origin() by {
            lemma_keyed_distinct(news, olds, t, u);
        }
    }
}

/// Whether the last step of `script` that renders a node renders the
/// first new node.
pub open spec fn ends_on_first(script: Seq<Step>) -> bool {
    exists|t: int|
        0 <= t < script.len() && (#[trigger] script[t]).target() == Some(0int) && forall|u: int|
            t < u < script.len() ==> (#[trigger] script[u]).target() is None
}

/// Positional reconciliation renders the first new node last.
pub proof fn lemma_unkeyed_ends_on_first(n: nat, m: nat)
    requires
        0 < n <= usize::MAX,
        m <= usize::MAX,
    ensures
        ends_on_first(unkeyed_script(n as int, m as int)),
{
    let script = unkeyed_script(n as int, m as int);
    let t = script.len() - 1;
    assert(script[t].target() == Some(0int));
}

/// Keyed reconciliation renders the first new node last: the anchor that it
/// leaves behind is that node.
pub proof fn lemma_keyed_ends_on_first(news: Seq<Key>, olds: Seq<Key>)
    requires
        0 < news.len() <= usize::MAX,
        olds.len() <= usize::MAX,
    ensures
        ends_on_first(keyed_script(news, olds)),
{
    let n = news.len() as int;
    let m = olds.len() as int;
    let z = zones(news, olds);
    let script = keyed_script(news, olds);
    lemma_zones(news, olds);
    if z.prefix == n || z.prefix == m {
        lemma_unkeyed_ends_on_first(news.len(), olds.len());
    } else {
        lemma_keyed_renders(news, olds, 0);
        let t = choose|t: int| 0 <= t < script.len() && (#[trigger] script[t]).target() == Some(0int);
        lemma_part_facts(news, olds, t);
        assert forall|u: int| t < u < script.len() implies (#[trigger] script[u]).target()
            is None by {
            lemma_part_facts(news, olds, u);
        }
    }
}

/// Whether every step of `script` abides by the keys: a node is patched
/// only from an old node with its key, created only where no old node has
/// its key, and an old node is detached only where no new node has its key.
pub open spec fn by_identity(script: Seq<Step>, news: Seq<Key>, olds: Seq<Key>) -> bool {
    forall|t: int|
        0 <= t < script.len() ==> match #[trigger] script[t] {
            Step::Patch { node, ancestor, .. } => news[node as int] == olds[ancestor as int],
            Step::Create { node } => !olds.contains(news[node as int]),
            Step::Detach { ancestor } => !news.contains(olds[ancestor as int]),
        }
}

/// Under keyed reconciliation a node is only ever patched from an old node
/// that bears its key, whatever the keys.
pub proof fn lemma_keyed_patches_same_key(news: Seq<Key>, olds: Seq<Key>)
    requires
        news.len() <= usize::MAX,
        olds.len() <= usize::MAX,
    ensures
        forall|t: int|
            0 <= t < keyed_script(news, olds).len() ==> (#[trigger] keyed_script(news, olds)[t]
                matches Step::Patch { node, ancestor, .. } ==> news[node as int]
                == olds[ancestor as int]),
{
    let n = news.len() as int;
    let m = olds.len() as int;
    let z = zones(news, olds);
    let script = keyed_script(news, olds);
    lemma_zones(news, olds);
    if z.prefix == n || z.prefix == m {
    } else {
        lemma_keyed_parts(news, olds);
        lemma_cleanup(news, olds);
        let s = z.suffix;
        let mid = z.new_end - z.prefix;
        let c = cleanup_steps(news, olds, z).len() as int;
        assert forall|t: int| 0 <= t < script.len() implies (#[trigger] script[t] matches Step::Patch {
            node,
            ancestor,
            ..
        } ==> news[node as int] == olds[ancestor as int]) by {
            if t < s {
                assert(news[n - 1 - t] == olds[(n - 1 - t) - n + m]);
            } else if t < s + mid {
                lemma_source(news, olds, z.new_end - 1 - (t - s));
            } else if t < s + mid + c {
            } else {
            }
        }
    }
}

/// Where no key stands twice on either side, equal keys of the two lists
/// stand in the same zone, and in the head and tail at matching positions.
proof fn lemma_partner(news: Seq<Key>, olds: Seq<Key>, i: int, j: int)
    requires
        news.no_duplicates(),
        olds.no_duplicates(),
        0 <= i < news.len(),
        0 <= j < olds.len(),
        news[i] == olds[j],
    ensures
        ({
            let z = zones(news, olds);
            if i < z.prefix || j < z.prefix {
                j == i
            } else if i >= z.new_end || j >= z.old_end {
                j == i - news.len() + olds.len()
            } else {
                z.prefix <= i < z.new_end && z.prefix <= j < z.old_end
            }
        }),
{
    let n = news.len() as int;
    let m = olds.len() as int;
    let z = zones(news, olds);
    lemma_zones(news, olds);
    if i < z.prefix {
        assert(news[i] == olds[i]);
    } else if j < z.prefix {
        assert(news[j] == olds[j]);
    } else if i >= z.new_end {
        assert(news[i] == olds[i - n + m]);
    } else if j >= z.old_end {
        assert(news[j + n - m] == olds[j]);
    }
}

/// Where no key stands twice on either side, keyed reconciliation creates
/// a node only where no old node bears its key.
proof fn lemma_created_is_new(news: Seq<Key>, olds: Seq<Key>, t: int)
    requires
        news.no_duplicates(),
        olds.no_duplicates(),
        news.len() <= usize::MAX,
        olds.len() <= usize::MAX,
        0 <= t < keyed_script(news, olds).len(),
        keyed_script(news, olds)[t] is Create,
    ensures
        !olds.contains(news[keyed_script(news, olds)[t].target().unwrap()]),
{
    let n = news.len() as int;
    let m = olds.len() as int;
    let z = zones(news, olds);
    let script = keyed_script(news, olds);
    let i = script[t].target().unwrap();
    lemma_zones(news, olds);
    if olds.contains(news[i]) {
        let j = olds.index_of(news[i]);
        assert(olds[j] == news[i]);
        if z.prefix == n || z.prefix == m {
            assert(0 <= i < n);
            lemma_partner(news, olds, i, j);
        } else {
            lemma_part_facts(news, olds, t);
            lemma_keyed_parts(news, olds);
            lemma_cleanup(news, olds);
            assert(z.prefix <= i < z.new_end);
            assert(source(news, olds, z, i) is None);
            lemma_partner(news, olds, i, j);
            assert(occurs(olds, z.prefix, z.old_end, news[i]));
            let x = choose|x: int|
                i + 1 <= x < z.new_end && 0 <= x < news.len() && #[trigger] news[x] == news[i];
        }
    }
}

/// Where no key stands twice on either side, keyed reconciliation detaches
/// an old node only where no new node bears its key.
proof fn lemma_detached_is_gone(news: Seq<Key>, olds: Seq<Key>, t: int)
    requires
        news.no_duplicates(),
        olds.no_duplicates(),
        news.len() <= usize::MAX,
        olds.len() <= usize::MAX,
        0 <= t < keyed_script(news, olds).len(),
        keyed_script(news, olds)[t] is Detach,
    ensures
        !news.contains(olds[keyed_script(news, olds)[t].origin().unwrap()]),
{
    let n = news.len() as int;
    let m = olds.len() as int;
    let z = zones(news, olds);
    let script = keyed_script(news, olds);
    let j = script[t].origin().unwrap();
    lemma_zones(news, olds);
    if news.contains(olds[j]) {
        let i = news.index_of(olds[j]);
        assert(news[i] == olds[j]);
        if z.prefix == n || z.prefix == m {
            assert(0 <= j < m);
            lemma_partner(news, olds, i, j);
        } else {
            lemma_part_facts(news, olds, t);
            lemma_keyed_parts(news, olds);
            lemma_cleanup(news, olds);
            assert(z.prefix <= j < z.old_end);
            assert(!claimed(news, olds, z, j));
            lemma_partner(news, olds, i, j);
            assert(occurs(news, z.prefix, z.new_end, olds[j]));
            lemma_leftmost(olds, z.prefix, z.old_end, olds[j]);
            assert(occurs(olds, z.prefix, z.old_end, olds[j]));
        }
    }
}

/// Where no key stands twice on either side, every step of the keyed
/// script abides by the keys.
pub proof fn lemma_keyed_by_identity(news: Seq<Key>, olds: Seq<Key>)
    requires
        news.no_duplicates(),
        olds.no_duplicates(),
        news.len() <= usize::MAX,
        olds.len() <= usize::MAX,
    ensures
        by_identity(keyed_script(news, olds), news, olds),
{
    let script = keyed_script(news, olds);
    lemma_keyed_patches_same_key(news, olds);
    assert forall|t: int| 0 <= t < script.len() implies match #[trigger] script[t] {
        Step::Patch { node, ancestor, .. } => news[node as int] == olds[ancestor as int],
        Step::Create { node } => !olds.contains(news[node as int]),
        Step::Detach { ancestor } => !news.contains(olds[ancestor as int]),
    } by {
        match script[t] {
            Step::Patch { .. } => {},
            Step::Create { .. } => {
                lemma_created_is_new(news, olds, t);
            },
            Step::Detach { .. } => {
                lemma_detached_is_gone(news, olds, t);
            },
        }
    }
}

proof fn lemma_patched_iff_same_key(news: Seq<Key>, olds: Seq<Key>, i: int, j: int)
    requires
        news.no_duplicates(),
        olds.no_duplicates(),
        exact(keyed_script(news, olds), news.len() as int, olds.len() as int),
        by_identity(keyed_script(news, olds), news, olds),
        0 <= i < news.len(),
        0 <= j < olds.len(),
    ensures
        news[i] == olds[j] <==> patches(keyed_script(news, olds), i, j),
{
    let script = keyed_script(news, olds);
    if news[i] == olds[j] {
        assert(renders(script, i));
        let t = choose|t: int| 0 <= t < script.len() && (#[trigger] script[t]).target() == Some(i);
        match script[t] {
            Step::Patch { node, ancestor, .. } => {
                assert(olds[ancestor as int] == olds[j]);
            },
            Step::Create { node } => {
                assert(olds.contains(olds[j]));
            },
            Step::Detach { .. } => {},
        }
    }
    if patches(script, i, j) {
        let t = choose|t: int|
            0 <= t < script.len() && (#[trigger] script[t]).target() == Some(i)
                && script[t].origin() == Some(j);
        assert(script[t] is Patch);
    }
}

proof fn lemma_created_iff_new(news: Seq<Key>, olds: Seq<Key>, i: int)
    requires
        exact(keyed_script(news, olds), news.len() as int, olds.len() as int),
        by_identity(keyed_script(news, olds), news, olds),
        0 <= i < news.len() <= usize::MAX,
    ensures
        !olds.contains(news[i]) <==> keyed_script(news, olds).contains(
            Step::Create { node: i as usize },
        ),
{
    let script = keyed_script(news, olds);
    let step = Step::Create { node: i as usize };
    if !olds.contains(news[i]) {
        assert(renders(script, i));
        let t = choose|t: int| 0 <= t < script.len() && (#[trigger] script[t]).target() == Some(i);
        match script[t] {
            Step::Patch { node, ancestor, .. } => {
                assert(script[t].origin() == Some(ancestor as int));
                assert(olds.contains(olds[ancestor as int]));
            },
            Step::Create { node } => {
                assert(script[t] == step);
            },
            Step::Detach { .. } => {},
        }
    }
    if script.contains(step) {
        let t = script.index_of(step);
        assert(script[t] == step);
    }
}

proof fn lemma_detached_iff_gone(news: Seq<Key>, olds: Seq<Key>, j: int)
    requires
        exact(keyed_script(news, olds), news.len() as int, olds.len() as int),
        by_identity(keyed_script(news, olds), news, olds),
        0 <= j < olds.len() <= usize::MAX,
    ensures
        !news.contains(olds[j]) <==> keyed_script(news, olds).contains(
            Step::Detach { ancestor: j as usize },
        ),
{
    let script = keyed_script(news, olds);
    let step = Step::Detach { ancestor: j as usize };
    if !news.contains(olds[j]) {
        assert(consumes(script, j));
        let t = choose|t: int| 0 <= t < script.len() && (#[trigger] script[t]).origin() == Some(j);
        match script[t] {
            Step::Patch { node, ancestor, .. } => {
                assert(script[t].target() == Some(node as int));
                assert(news.contains(news[node as int]));
            },
            Step::Detach { ancestor } => {
                assert(script[t] == step);
            },
            Step::Create { .. } => {},
        }
    }
    if script.contains(step) {
        let t = script.index_of(step);
        assert(script[t] == step);
    }
}

/// Identity preservation under keyed reconciliation.
///
/// Where no key stands twice in the new list and none twice in the old one,
/// the script goes by the keys alone: a new node whose key an old node
/// bears is patched from that very node, a new node whose key no old node
/// bears is created, and an old node whose key no new node bears is
/// detached. Each of this happens in one step only, and nothing else does.
pub proof fn lemma_keyed_identity(news: Seq<Key>, olds: Seq<Key>)
    requires
        news.no_duplicates(),
        olds.no_duplicates(),
        news.len() <= usize::MAX,
        olds.len() <= usize::MAX,
    ensures
        exact(keyed_script(news, olds), news.len() as int, olds.len() as int),
        by_identity(keyed_script(news, olds), news, olds),
        forall|i: int, j: int|
            0 <= i < news.len() && 0 <= j < olds.len() ==> (news[i] == olds[j] <==> #[trigger] patches(
                keyed_script(news, olds),
                i,
                j,
            )),
        forall|i: int|
            0 <= i < news.len() ==> (!olds.contains(news[i]) <==> #[trigger] keyed_script(
                news,
                olds,
            ).contains(Step::Create { node: i as usize })),
        forall|j: int|
            0 <= j < olds.len() ==> (!news.contains(olds[j]) <==> #[trigger] keyed_script(
                news,
                olds,
            ).contains(Step::Detach { ancestor: j as usize })),
{
    let script = keyed_script(news, olds);
    lemma_keyed_exact(news, olds);
    lemma_keyed_by_identity(news, olds);
    assert forall|i: int, j: int| 0 <= i < news.len() && 0 <= j < olds.len() implies (news[i]
        == olds[j] <==> #[trigger] patches(script, i, j)) by {
        lemma_patched_iff_same_key(news, olds, i, j);
    }
    assert forall|i: int| 0 <= i < news.len() implies (!olds.contains(news[i])
        <==> #[trigger] script.contains(Step::Create { node: i as usize })) by {
        lemma_created_iff_new(news, olds, i);
    }
    assert forall|j: int| 0 <= j < olds.len() implies (!news.contains(olds[j])
        <==> #[trigger] script.contains(Step::Detach { ancestor: j as usize })) by {
        lemma_detached_iff_gone(news, olds, j);
    }
}

/// In a script that counts no relocation no step relocates a node.
pub proof fn lemma_moves_none(script: Seq<Step>, t: int)
    requires
        moves(script) == 0,
        0 <= t < script.len(),
    ensures
        !script[t].is_move(),
{
    let pred = |s: Step| s.is_move();
    if script[t].is_move() {
        script.lemma_filter_contains(pred, t);
        let x = script.filter(pred).index_of(script[t]);
    }
}

/// Where keyed reconciliation relocates nothing, no new middle node from
/// `i` on takes an old node over: the rightmost that did would have lost
/// its right-hand neighbour and been relocated.
proof fn lemma_unmoved_from(news: Seq<Key>, olds: Seq<Key>, i: int)
    requires
        news.len() <= usize::MAX,
        olds.len() <= usize::MAX,
        zones(news, olds).prefix != news.len(),
        zones(news, olds).prefix != olds.len(),
        moves(keyed_script(news, olds)) == 0,
        zones(news, olds).prefix <= i <= zones(news, olds).new_end,
    ensures
        forall|x: int|
            i <= x < zones(news, olds).new_end ==> (#[trigger] source(
                news,
                olds,
                zones(news, olds),
                x,
            )) is None,
    decreases zones(news, olds).new_end - i,
{
    let z = zones(news, olds);
    let script = keyed_script(news, olds);
    lemma_zones(news, olds);
    if i < z.new_end {
        lemma_unmoved_from(news, olds, i + 1);
        if source(news, olds, z, i) is Some {
            let j = source(news, olds, z, i).unwrap();
            lemma_keyed_parts(news, olds);
            let t = z.suffix + (z.new_end - 1 - i);
            assert(script[t] == middle_step(news, olds, z, i));
            lemma_moves_none(script, t);
            lemma_source(news, olds, i);
            // The neighbour to the right is an old middle node as well.
            let k = news[i + 1];
            assert(occurs(olds, z.prefix, z.old_end, k)) by {
                assert(olds[j + 1] == k);
            }
            assert(occurs(news, z.prefix, z.new_end, k)) by {
                assert(news[i + 1] == k);
            }
            lemma_rightmost(news, z.prefix, z.new_end, k);
            let r = rightmost(news, z.prefix, z.new_end, k);
            if r <= i {
                assert(occurs(news, r + 1, z.new_end, k)) by {
                    assert(news[i + 1] == k);
                }
            }
            assert(source(news, olds, z, r) is Some);
        }
    }
}

/// What is kept of a sequence all of whose elements pass is the sequence.
proof fn lemma_filter_all(s: Seq<int>, pred: spec_fn(int) -> bool)
    requires
        forall|x: int| 0 <= x < s.len() ==> pred(#[trigger] s[x]),
    ensures
        s.filter(pred) == s,
    decreases s.len(),
{
    if s.len() == 0 {
        s.lemma_filter_len(pred);
        assert(s.filter(pred) =~= s);
    } else {
        let front = s.drop_last();
        assert(s =~= front.push(s.last()));
        assert forall|x: int| 0 <= x < front.len() implies pred(#[trigger] front[x]) by {
            assert(front[x] == s[x]);
        }
        lemma_filter_all(front, pred);
        front.lemma_filter_push(s.last(), pred);
    }
}

/// The script of a keyed reconciliation that relocates nothing: the tail
/// is patched in place, every new middle node is created, every old middle
/// node is detached, and the head is patched in place.
pub proof fn lemma_unmoved_script(news: Seq<Key>, olds: Seq<Key>)
    requires
        news.len() <= usize::MAX,
        olds.len() <= usize::MAX,
        moves(keyed_script(news, olds)) == 0,
    ensures
        ({
            let z = zones(news, olds);
            keyed_script(news, olds) == keeps(news.len() - 1, olds.len() - 1, z.suffix) + makes(
                z.new_end - 1,
                z.new_end - z.prefix,
            ) + drops(z.old_end - 1, z.old_end - z.prefix) + keeps(
                z.prefix - 1,
                z.prefix - 1,
                z.prefix,
            )
        }),
{
    let n = news.len() as int;
    let m = olds.len() as int;
    let z = zones(news, olds);
    let script = keyed_script(news, olds);
    lemma_zones(news, olds);
    let shape = keeps(n - 1, m - 1, z.suffix) + makes(z.new_end - 1, z.new_end - z.prefix) + drops(
        z.old_end - 1,
        z.old_end - z.prefix,
    ) + keeps(z.prefix - 1, z.prefix - 1, z.prefix);
    if z.prefix == n || z.prefix == m {
        assert(z.suffix == 0);
        assert(script =~= shape);
    } else {
        lemma_unmoved_from(news, olds, z.prefix);
        assert(middle_steps(news, olds, z) =~= makes(z.new_end - 1, z.new_end - z.prefix));
        let pred = unclaimed(news, olds, z);
        let all = old_middle(z);
        assert forall|x: int| 0 <= x < all.len() implies pred(#[trigger] all[x]) by {
            let j = all[x];
            if claimed(news, olds, z, j) {
                lemma_claimed(news, olds, j);
            }
        }
        lemma_filter_all(all, pred);
        assert(cleanup_steps(news, olds, z) =~= drops(z.old_end - 1, z.old_end - z.prefix));
        assert(script =~= shape);
    }
}

} // verus!
