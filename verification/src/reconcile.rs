//! The two reconcilers: by position, and by identity key.
use vstd::prelude::*;
use std::collections::HashMap;
use crate::keys::{matching_len, matching_len_rev, Key};
use crate::laws::{
    ends_on_first, lemma_keyed_ends_on_first, lemma_keyed_exact, lemma_unkeyed_ends_on_first,
    lemma_unkeyed_exact,
};
use crate::script::{
    claimed, cleanup_steps, detachment, exact, head_steps, keyed_script, leftmost, lemma_leftmost,
    middle_step, middle_steps, occurs, old_middle, source, stays, tail_steps, unclaimed,
    unkeyed_script, zones, Step,
};
use crate::vlist::VList;
use crate::vnode::{all_keyed, keys_of, VNode};

verus! {

broadcast use vstd::std_specs::hash::group_hash_axioms;

/// The keys of `nodes`, position by position.
pub fn map_keys(nodes: &Vec<VNode>) -> (keys: Vec<Key>)
    requires
        all_keyed(nodes@),
    ensures
        keys@ == keys_of(nodes@),
{
    let mut keys: Vec<Key> = Vec::new();
    let mut i: usize = 0;
    while i < nodes.len()
        invariant
            0 <= i <= nodes.len(),
            all_keyed(nodes@),
            keys@ =~= keys_of(nodes@).take(i as int),
        decreases nodes.len() - i,
    {
        assert(nodes@[i as int].spec_has_key());
        match nodes[i].key() {
            Some(key) => keys.push(key),
            None => {},
        }
        i += 1;
    }
    keys
}

impl VList {
    /// Reconciles by position: the script for the new nodes `lefts` against
    /// the old nodes `rights`. A surplus on either side is taken to sit at
    /// the end: surplus new nodes are created, surplus old nodes detached,
    /// and the rest is patched pair by pair, all from right to left.
    ///
    /// The script deals with every new node and every old node exactly once,
    /// and renders the first new node last, which leaves the anchor on it.
    pub fn apply_unkeyed(lefts: &Vec<VNode>, rights: &Vec<VNode>) -> (script: Vec<Step>)
        ensures
            script@ == unkeyed_script(lefts@.len() as int, rights@.len() as int),
            exact(script@, lefts@.len() as int, rights@.len() as int),
            lefts@.len() > 0 ==> ends_on_first(script@),
    {
        let n: usize = lefts.len();
        let m: usize = rights.len();
        let ghost len: int = if n >= m { n as int } else { m as int };
        let ghost whole = unkeyed_script(n as int, m as int);
        let mut script: Vec<Step> = Vec::new();
        let mut l: usize = n;
        let mut r: usize = m;
        // Create the new nodes that have no counterpart.
        while l > r
            invariant
                r == m,
                l <= n,
                l == n || l >= m,
                len == (if n >= m { n as int } else { m as int }),
                whole == unkeyed_script(n as int, m as int),
                script@ =~= whole.take(len - (if l >= m { l as int } else { m as int })),
            decreases l,
        {
            l -= 1;
            script.push(Step::Create { node: l });
        }
        // Detach the old nodes that have no counterpart.
        while r > l
            invariant
                r <= m,
                l <= n,
                l <= r,
                l == n || r == m,
                l == n || l == m,
                len == (if n >= m { n as int } else { m as int }),
                whole == unkeyed_script(n as int, m as int),
                script@ =~= whole.take(len - r),
            decreases r,
        {
            r -= 1;
            script.push(Step::Detach { ancestor: r });
        }
        // Patch what both sides have.
        while l > 0
            invariant
                l <= n,
                l <= m,
                len == (if n >= m { n as int } else { m as int }),
                whole == unkeyed_script(n as int, m as int),
                script@ =~= whole.take(len - l),
            decreases l,
        {
            l -= 1;
            script.push(Step::Patch { node: l, ancestor: l, moved: false });
        }
        proof {
            assert(script@ == whole);
            lemma_unkeyed_exact(lefts@.len(), rights@.len());
            if n > 0 {
                lemma_unkeyed_ends_on_first(lefts@.len(), rights@.len());
            }
        }
        script
    }

    /// Reconciles by identity key: the script for the new nodes `lefts`
    /// against the old nodes `rights`, all of which have keys.
    ///
    /// Made for nodes added or removed at either end of the list and for
    /// small changes in between. Where one list's keys are a prefix of the
    /// other's, the work is left to positional reconciliation. Two old middle
    /// nodes with one key are told apart by position: the leftmost answers to
    /// the key, and the others are detached with what is left over. So the
    /// script deals with every new node and every old node exactly once. It
    /// renders the first new node last, which leaves the anchor on it.
    pub fn apply_keyed(lefts: &Vec<VNode>, rights: &Vec<VNode>) -> (script: Vec<Step>)
        requires
            all_keyed(lefts@),
            all_keyed(rights@),
        ensures
            script@ == keyed_script(keys_of(lefts@), keys_of(rights@)),
            exact(script@, lefts@.len() as int, rights@.len() as int),
            lefts@.len() > 0 ==> ends_on_first(script@),
    {
        let lefts_keys = map_keys(lefts);
        let rights_keys = map_keys(rights);
        let n: usize = lefts_keys.len();
        let m: usize = rights_keys.len();
        let ghost nk = lefts_keys@;
        let ghost ok = rights_keys@;
        let ghost z = zones(nk, ok);
        proof {
            lemma_keyed_exact(nk, ok);
            if n > 0 {
                lemma_keyed_ends_on_first(nk, ok);
            }
        }

        // Find the first key mismatch from the front.
        let from_start = matching_len(&lefts_keys, &rights_keys);
        if from_start == n || from_start == m {
            // No key changes.
            return Self::apply_unkeyed(lefts, rights);
        }
        // Find the first key mismatch from the back.
        let from_end = matching_len_rev(&lefts_keys, &rights_keys, from_start);
        let lefts_to: usize = n - from_end;
        let rights_to: usize = m - from_end;
        assert(z.prefix == from_start && z.suffix == from_end && z.new_end == lefts_to
            && z.old_end == rights_to);

        let mut script: Vec<Step> = Vec::new();

        // Patch the matching nodes at the end.
        let mut t: usize = 0;
        while t < from_end
            invariant
                0 <= t <= from_end,
                from_end <= n,
                from_end <= m,
                z.suffix == from_end,
                script@ =~= tail_steps(n as int, m as int, z).take(t as int),
            decreases from_end - t,
        {
            script.push(Step::Patch { node: n - 1 - t, ancestor: m - 1 - t, moved: false });
            t += 1;
        }
        let ghost tail = script@;
        assert(tail =~= tail_steps(n as int, m as int, z));

        // Index the old middle by key, right to left, so that of equal keys
        // the leftmost is the one found.
        let mut rights_diff: HashMap<Key, usize> = HashMap::new();
        let mut j: usize = rights_to;
        while j > from_start
            invariant
                from_start <= j <= rights_to,
                rights_to <= m,
                m == rights_keys@.len(),
                ok == rights_keys@,
                forall|k: Key| #[trigger]
                    rights_diff@.contains_key(k) <==> occurs(ok, j as int, rights_to as int, k),
                forall|k: Key| #[trigger]
                    rights_diff@.contains_key(k) ==> rights_diff@[k] == leftmost(
                        ok,
                        j as int,
                        rights_to as int,
                        k,
                    ),
            decreases j,
        {
            j -= 1;
            let key = rights_keys[j];
            proof {
                assert forall|k: Key|
                    occurs(ok, j as int, rights_to as int, k) <==> (k == key || occurs(
                        ok,
                        j as int + 1,
                        rights_to as int,
                        k,
                    )) by {
                    if occurs(ok, j as int, rights_to as int, k) && k != key {
                        let i = choose|i: int|
                            j <= i < rights_to && 0 <= i < ok.len() && #[trigger] ok[i] == k;
                        assert(j + 1 <= i < rights_to && ok[i] == k);
                    }
                    if k == key {
                        assert(ok[j as int] == k);
                    }
                    if occurs(ok, j as int + 1, rights_to as int, k) {
                        let i = choose|i: int|
                            j + 1 <= i < rights_to && 0 <= i < ok.len() && #[trigger] ok[i] == k;
                        assert(j <= i < rights_to && ok[i] == k);
                    }
                }
            }
            rights_diff.insert(key, j);
        }

        // Reconcile the new middle, right to left.
        let mut taken: Vec<bool> = Vec::new();
        let mut c: usize = from_start;
        while c < rights_to
            invariant
                from_start <= c <= rights_to,
                taken@.len() == c - from_start,
                forall|q: int| 0 <= q < taken@.len() ==> !taken@[q],
            decreases rights_to - c,
        {
            taken.push(false);
            c += 1;
        }
        let mut i: usize = lefts_to;
        while i > from_start
            invariant
                from_start <= i <= lefts_to,
                lefts_to <= n,
                from_start <= rights_to <= m,
                n == lefts_keys@.len(),
                m == rights_keys@.len(),
                nk == lefts_keys@,
                ok == rights_keys@,
                z == zones(nk, ok),
                z.prefix == from_start && z.suffix == from_end && z.new_end == lefts_to
                    && z.old_end == rights_to,
                taken@.len() == rights_to - from_start,
                forall|k: Key| #[trigger]
                    rights_diff@.contains_key(k) <==> (occurs(
                        ok,
                        from_start as int,
                        rights_to as int,
                        k,
                    ) && !occurs(nk, i as int, lefts_to as int, k)),
                forall|k: Key| #[trigger]
                    rights_diff@.contains_key(k) ==> rights_diff@[k] == leftmost(
                        ok,
                        from_start as int,
                        rights_to as int,
                        k,
                    ),
                forall|q: int|
                    from_start <= q < rights_to ==> (#[trigger] taken@[q - from_start] == (leftmost(
                        ok,
                        from_start as int,
                        rights_to as int,
                        ok[q],
                    ) == q && occurs(nk, i as int, lefts_to as int, ok[q]))),
                script@ =~= tail + middle_steps(nk, ok, z).take(lefts_to - i),
            decreases i,
        {
            i -= 1;
            let key = lefts_keys[i];
            proof {
                lemma_leftmost(ok, from_start as int, rights_to as int, key);
                assert forall|k: Key|
                    occurs(nk, i as int, lefts_to as int, k) <==> (k == key || occurs(
                        nk,
                        i as int + 1,
                        lefts_to as int,
                        k,
                    )) by {
                    if occurs(nk, i as int, lefts_to as int, k) && k != key {
                        let x = choose|x: int|
                            i <= x < lefts_to && 0 <= x < nk.len() && #[trigger] nk[x] == k;
                        assert(i + 1 <= x < lefts_to && nk[x] == k);
                    }
                    if k == key {
                        assert(nk[i as int] == k);
                    }
                    if occurs(nk, i as int + 1, lefts_to as int, k) {
                        let x = choose|x: int|
                            i + 1 <= x < lefts_to && 0 <= x < nk.len() && #[trigger] nk[x] == k;
                        assert(i <= x < lefts_to && nk[x] == k);
                    }
                }
            }
            let ghost before = rights_diff@;
            let ghost flags = taken@;
            match rights_diff.remove(&key) {
                // Reorder and patch a node that was there before.
                Some(found) => {
                    assert(before.contains_key(key));
                    assert(found == leftmost(ok, from_start as int, rights_to as int, key));
                    // With the same neighbour to its right as before, the
                    // node needs no move.
                    let stay = found + 1 < rights_to && i + 1 < lefts_to && rights_keys[found + 1]
                        == lefts_keys[i + 1];
                    assert(source(nk, ok, z, i as int) == Some(found as int));
                    assert(stay == stays(nk, ok, z, i as int, found as int));
                    script.push(Step::Patch { node: i, ancestor: found, moved: !stay });
                    taken.set(found - from_start, true);
                    assert forall|q: int| from_start <= q < rights_to implies (
                    #[trigger] taken@[q - from_start] == (leftmost(
                        ok,
                        from_start as int,
                        rights_to as int,
                        ok[q],
                    ) == q && occurs(nk, i as int, lefts_to as int, ok[q]))) by {
                        assert(flags[q - from_start] == (leftmost(
                            ok,
                            from_start as int,
                            rights_to as int,
                            ok[q],
                        ) == q && occurs(nk, i as int + 1, lefts_to as int, ok[q])));
                    }
                },
                // Add a node that was not.
                None => {
                    assert(!before.contains_key(key));
                    assert(source(nk, ok, z, i as int) is None);
                    script.push(Step::Create { node: i });
                    assert forall|q: int| from_start <= q < rights_to implies (
                    #[trigger] taken@[q - from_start] == (leftmost(
                        ok,
                        from_start as int,
                        rights_to as int,
                        ok[q],
                    ) == q && occurs(nk, i as int, lefts_to as int, ok[q]))) by {
                        assert(flags[q - from_start] == (leftmost(
                            ok,
                            from_start as int,
                            rights_to as int,
                            ok[q],
                        ) == q && occurs(nk, i as int + 1, lefts_to as int, ok[q])));
                        if ok[q] == key {
                            assert(occurs(ok, from_start as int, rights_to as int, key));
                        }
                    }
                },
            }
            assert(middle_steps(nk, ok, z)[lefts_to - i - 1] == middle_step(nk, ok, z, i as int));
        }
        let ghost middle = script@;
        assert(middle =~= tail + middle_steps(nk, ok, z));

        // Detach what is left of the old middle.
        let mut d: usize = rights_to;
        while d > from_start
            invariant
                from_start <= d <= rights_to,
                z.prefix == from_start && z.old_end == rights_to && z.new_end == lefts_to,
                taken@.len() == rights_to - from_start,
                forall|q: int|
                    from_start <= q < rights_to ==> (#[trigger] taken@[q - from_start] == claimed(
                        nk,
                        ok,
                        z,
                        q,
                    )),
                script@ =~= middle + old_middle(z).take(rights_to - d).filter(
                    unclaimed(nk, ok, z),
                ).map_values(detachment()),
            decreases d,
        {
            d -= 1;
            proof {
                let seen = old_middle(z).take(rights_to - d - 1);
                assert(old_middle(z).take(rights_to - d) =~= seen.push(d as int));
                seen.lemma_filter_push(d as int, unclaimed(nk, ok, z));
                assert(taken@[d - from_start] == claimed(nk, ok, z, d as int));
            }
            if !taken[d - from_start] {
                script.push(Step::Detach { ancestor: d });
            }
        }
        let ghost cleaned = script@;
        assert(old_middle(z).take(rights_to - from_start) =~= old_middle(z));
        assert(cleaned =~= middle + cleanup_steps(nk, ok, z));

        // Patch the matching nodes at the start.
        let mut h: usize = from_start;
        while h > 0
            invariant
                0 <= h <= from_start,
                from_start <= n,
                from_start <= m,
                z.prefix == from_start,
                script@ =~= cleaned + head_steps(z).take(from_start - h),
            decreases h,
        {
            h -= 1;
            script.push(Step::Patch { node: h, ancestor: h, moved: false });
        }
        assert(script@ =~= tail_steps(n as int, m as int, z) + middle_steps(nk, ok, z)
            + cleanup_steps(nk, ok, z) + head_steps(z));
        script
    }
}

} // verus!
