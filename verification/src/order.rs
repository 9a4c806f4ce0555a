//! What the scripts of the reconcilers do to a rendering target.
use vstd::prelude::*;
use crate::dom::{
    advance, lemma_index_of, lemma_placed_before, placed_before, replay, shifted, unplaced,
    without, Handle, RenderError, Scene,
};
use crate::keys::Key;
use crate::laws::{lemma_unmoved_script, lemma_zones};
use crate::phases::{
    dropped, kept, lemma_drops, lemma_keeps, lemma_makes, lemma_replay_add, lemma_replay_push,
    made,
};
use crate::script::{
    drops, keeps, keyed_script, makes, moves, unkeyed_script, unkeyed_step, zones, Step, Zones,
};

verus! {

/// The first of `post`, if it has one: the anchor of what is written
/// before `post`.
pub open spec fn anchor_of(post: Seq<Handle>) -> Option<Handle> {
    if post.len() > 0 {
        Some(post[0])
    } else {
        None
    }
}

/// The handle that positional reconciliation gives new position `i` of `n`:
/// that of the old node at the same position, or, where the old list has
/// ended, a new one. New handles are handed out from `next` on, from the
/// last position to the first.
pub open spec fn unkeyed_handle(olds: Seq<Handle>, next: Handle, n: int, i: int) -> Handle {
    if i < olds.len() {
        olds[i]
    } else {
        (next + (n - 1 - i)) as Handle
    }
}

/// The handles that positional reconciliation gives to `n` new nodes.
pub open spec fn unkeyed_handles(olds: Seq<Handle>, next: Handle, n: nat) -> Seq<Handle> {
    Seq::new(n, |i: int| unkeyed_handle(olds, next, n as int, i))
}

/// The larger of two numbers.
pub open spec fn larger(a: int, b: int) -> int {
    if a >= b {
        a
    } else {
        b
    }
}

/// The smaller of two numbers.
pub open spec fn smaller(a: int, b: int) -> int {
    if a <= b {
        a
    } else {
        b
    }
}

/// Where the old nodes stand side by side: their handles are children of
/// the parent, in their order, between `pre` and `post`; no child stands
/// twice; and every child was created.
pub open spec fn side_by_side(
    pre: Seq<Handle>,
    olds: Seq<Handle>,
    post: Seq<Handle>,
    next: Handle,
) -> bool {
    &&& (pre + olds + post).no_duplicates()
    &&& forall|i: int| 0 <= i < (pre + olds + post).len() ==> (pre + olds + post)[i] < next
}

/// Where positional reconciliation of `n` new nodes may start: the old
/// nodes stand side by side, and enough handles are left for the new nodes
/// that have no old counterpart.
pub open spec fn unkeyed_start(
    pre: Seq<Handle>,
    olds: Seq<Handle>,
    post: Seq<Handle>,
    next: Handle,
    n: int,
) -> bool {
    &&& side_by_side(pre, olds, post, next)
    &&& 0 <= n <= usize::MAX
    &&& olds.len() <= usize::MAX
    &&& next + larger(n - olds.len(), 0) <= u64::MAX
}

/// The scene of positional reconciliation once every position from `cur`
/// on has been dealt with: old nodes from `cur` on that have no new
/// counterpart are gone, new nodes from `cur` on that have no old
/// counterpart stand behind the old ones, and the rest is where it was.
pub open spec fn unkeyed_scene(
    pre: Seq<Handle>,
    olds: Seq<Handle>,
    post: Seq<Handle>,
    next: Handle,
    n: int,
    cur: int,
) -> Scene {
    let m = olds.len() as int;
    let kept = smaller(m, larger(cur, n));
    let from = larger(cur, m);
    let made = larger(n - from, 0);
    Scene {
        children: pre + olds.take(kept) + Seq::new(
            made as nat,
            |k: int| unkeyed_handle(olds, next, n, from + k),
        ) + post,
        next: (next + made) as Handle,
        anchor: if cur < n {
            Some(unkeyed_handle(olds, next, n, cur))
        } else {
            anchor_of(post)
        },
        placed: Seq::new(
            n as nat,
            |i: int|
                if i >= cur {
                    Some(unkeyed_handle(olds, next, n, i))
                } else {
                    None
                },
        ),
    }
}

proof fn lemma_unkeyed_scene_distinct(
    pre: Seq<Handle>,
    olds: Seq<Handle>,
    post: Seq<Handle>,
    next: Handle,
    n: int,
    cur: int,
)
    requires
        unkeyed_start(pre, olds, post, next, n),
        0 <= cur <= larger(n, olds.len() as int),
    ensures
        unkeyed_scene(pre, olds, post, next, n, cur).children.no_duplicates(),
{
    let m = olds.len() as int;
    let kept = smaller(m, larger(cur, n));
    let from = larger(cur, m);
    let made = larger(n - from, 0);
    let all = pre + olds + post;
    let now = unkeyed_scene(pre, olds, post, next, n, cur).children;
    let a = pre.len() as int;
    assert forall|x: int, y: int| 0 <= x < now.len() && 0 <= y < now.len() && x != y implies now[x]
        != now[y] by {
        let old_x = x < a + kept || x >= a + kept + made;
        let old_y = y < a + kept || y >= a + kept + made;
        let from_x = if x < a + kept { x } else { x - kept - made + m };
        let from_y = if y < a + kept { y } else { y - kept - made + m };
        if old_x {
            assert(now[x] == all[from_x]);
        } else {
            assert(now[x] == unkeyed_handle(olds, next, n, from + (x - a - kept)));
        }
        if old_y {
            assert(now[y] == all[from_y]);
        } else {
            assert(now[y] == unkeyed_handle(olds, next, n, from + (y - a - kept)));
        }
    }
}

proof fn lemma_unkeyed_create(
    pre: Seq<Handle>,
    olds: Seq<Handle>,
    post: Seq<Handle>,
    next: Handle,
    n: int,
    i: int,
)
    requires
        unkeyed_start(pre, olds, post, next, n),
        olds.len() <= i < n,
    ensures
        advance(
            unkeyed_scene(pre, olds, post, next, n, i + 1),
            Step::Create { node: i as usize },
            olds,
        ) == Ok::<Scene, RenderError>(unkeyed_scene(pre, olds, post, next, n, i)),
{
    let m = olds.len() as int;
    let before = unkeyed_scene(pre, olds, post, next, n, i + 1);
    let after = unkeyed_scene(pre, olds, post, next, n, i);
    let all = pre + olds + post;
    let a = pre.len() as int;
    lemma_unkeyed_scene_distinct(pre, olds, post, next, n, i + 1);
    let fresh = before.next;
    assert(fresh == next + (n - 1 - i));
    assert forall|x: int| 0 <= x < before.children.len() implies before.children[x] != fresh by {
        if x < a + m {
            assert(before.children[x] == all[x]);
        } else if x < a + m + (n - i - 1) {
            assert(before.children[x] == unkeyed_handle(olds, next, n, i + 1 + (x - a - m)));
        } else {
            assert(before.children[x] == all[x - (n - i - 1)]);
        }
    }
    assert(!before.children.contains(fresh));
    assert(without(before.children, fresh) == before.children);
    if before.anchor is Some {
        let at = a + m;
        assert(before.children[at] == before.anchor.unwrap()) by {
            if i + 1 < n {
                assert(before.children[at] == unkeyed_handle(olds, next, n, i + 1 + 0));
            } else {
                assert(before.children[at] == all[at]);
            }
        }
        lemma_index_of(before.children, at);
        assert(before.children.insert(at, fresh) =~= after.children);
    } else {
        assert(post.len() == 0 && i + 1 == n);
        assert(before.children.push(fresh) =~= after.children);
    }
    assert(before.placed.update(i, Some(fresh)) =~= after.placed);
}

proof fn lemma_unkeyed_detach(
    pre: Seq<Handle>,
    olds: Seq<Handle>,
    post: Seq<Handle>,
    next: Handle,
    n: int,
    i: int,
)
    requires
        unkeyed_start(pre, olds, post, next, n),
        n <= i < olds.len(),
    ensures
        advance(
            unkeyed_scene(pre, olds, post, next, n, i + 1),
            Step::Detach { ancestor: i as usize },
            olds,
        ) == Ok::<Scene, RenderError>(unkeyed_scene(pre, olds, post, next, n, i)),
{
    let before = unkeyed_scene(pre, olds, post, next, n, i + 1);
    let after = unkeyed_scene(pre, olds, post, next, n, i);
    lemma_unkeyed_scene_distinct(pre, olds, post, next, n, i + 1);
    let at = pre.len() + i;
    assert(before.children[at] == olds[i]);
    lemma_index_of(before.children, at);
    assert(before.children.remove(at) =~= after.children);
    assert(before.placed =~= after.placed);
}

proof fn lemma_unkeyed_patch(
    pre: Seq<Handle>,
    olds: Seq<Handle>,
    post: Seq<Handle>,
    next: Handle,
    n: int,
    i: int,
)
    requires
        unkeyed_start(pre, olds, post, next, n),
        0 <= i < n,
        i < olds.len(),
    ensures
        advance(unkeyed_scene(pre, olds, post, next, n, i + 1), Step::keep(i, i), olds) == Ok::<
            Scene,
            RenderError,
        >(unkeyed_scene(pre, olds, post, next, n, i)),
{
    let before = unkeyed_scene(pre, olds, post, next, n, i + 1);
    let after = unkeyed_scene(pre, olds, post, next, n, i);
    assert(before.children =~= after.children);
    assert(before.placed.update(i, Some(olds[i])) =~= after.placed);
}

proof fn lemma_unkeyed_step(
    pre: Seq<Handle>,
    olds: Seq<Handle>,
    post: Seq<Handle>,
    next: Handle,
    n: int,
    i: int,
)
    requires
        unkeyed_start(pre, olds, post, next, n),
        0 <= i < larger(n, olds.len() as int),
    ensures
        advance(
            unkeyed_scene(pre, olds, post, next, n, i + 1),
            unkeyed_step(n, olds.len() as int, i),
            olds,
        ) == Ok::<Scene, RenderError>(unkeyed_scene(pre, olds, post, next, n, i)),
{
    if i >= olds.len() {
        lemma_unkeyed_create(pre, olds, post, next, n, i);
    } else if i >= n {
        lemma_unkeyed_detach(pre, olds, post, next, n, i);
    } else {
        lemma_unkeyed_patch(pre, olds, post, next, n, i);
    }
}

proof fn lemma_unkeyed_steps(
    pre: Seq<Handle>,
    olds: Seq<Handle>,
    post: Seq<Handle>,
    next: Handle,
    n: int,
    t: int,
)
    requires
        unkeyed_start(pre, olds, post, next, n),
        0 <= t <= larger(n, olds.len() as int),
    ensures
        replay(
            unkeyed_scene(pre, olds, post, next, n, larger(n, olds.len() as int)),
            unkeyed_script(n, olds.len() as int).take(t),
            olds,
        ) == Ok::<Scene, RenderError>(
            unkeyed_scene(pre, olds, post, next, n, larger(n, olds.len() as int) - t),
        ),
    decreases t,
{
    let m = olds.len() as int;
    let len = larger(n, m);
    let whole = unkeyed_script(n, m);
    let start = unkeyed_scene(pre, olds, post, next, n, len);
    if t == 0 {
        assert(whole.take(0) =~= Seq::<Step>::empty());
    } else {
        lemma_unkeyed_steps(pre, olds, post, next, n, t - 1);
        assert(whole.take(t) =~= whole.take(t - 1).push(whole[t - 1]));
        lemma_replay_push(start, whole.take(t - 1), whole[t - 1], olds);
        lemma_unkeyed_step(pre, olds, post, next, n, len - t);
    }
}

/// Order preservation of positional reconciliation.
///
/// Let the old nodes stand side by side in a parent, before the anchor.
/// Then the script for `n` new nodes runs without failure, and afterwards
/// the new nodes stand in their order exactly where the old ones stood:
/// each new node that has an old node at its position took over that
/// node's handle without a move, each other new node has a new handle, and
/// the old nodes beyond the new list are gone. With as many new nodes as old
/// ones the children are what they were; with more, the additional ones
/// follow the old ones. The anchor ends up on the first new node.
pub proof fn lemma_unkeyed_in_place(
    pre: Seq<Handle>,
    olds: Seq<Handle>,
    post: Seq<Handle>,
    next: Handle,
    n: nat,
)
    requires
        unkeyed_start(pre, olds, post, next, n as int),
    ensures
        replay(
            start_scene(pre, olds, post, next, n),
            unkeyed_script(n as int, olds.len() as int),
            olds,
        ) == Ok::<Scene, RenderError>(
            Scene {
                children: pre + unkeyed_handles(olds, next, n) + post,
                next: (next + larger(n - olds.len(), 0)) as Handle,
                anchor: if n > 0 {
                    Some(unkeyed_handles(olds, next, n)[0])
                } else {
                    anchor_of(post)
                },
                placed: unkeyed_handles(olds, next, n).map_values(|h: Handle| Some(h)),
            },
        ),
        n == olds.len() ==> unkeyed_handles(olds, next, n) == olds,
        n >= olds.len() ==> unkeyed_handles(olds, next, n).take(olds.len() as int) == olds,
{
    let m = olds.len() as int;
    let len = larger(n as int, m);
    let whole = unkeyed_script(n as int, m);
    lemma_unkeyed_steps(pre, olds, post, next, n as int, len);
    assert(whole.take(len) =~= whole);
    let start = unkeyed_scene(pre, olds, post, next, n as int, len);
    let end = unkeyed_scene(pre, olds, post, next, n as int, 0);
    let handles = unkeyed_handles(olds, next, n);
    assert(start.children =~= pre + olds + post);
    assert(start.placed =~= unplaced(n));
    assert(end.children =~= pre + handles + post);
    assert(end.placed =~= handles.map_values(|h: Handle| Some(h)));
    if n == olds.len() {
        assert(handles =~= olds);
    }
    if n >= olds.len() {
        assert(handles.take(olds.len() as int) =~= olds);
    }
}

/// The handle that a keyed reconciliation without relocation gives new
/// position `i`: in the head and in the tail that of the old node met
/// there, in the middle a new one. New handles are handed out from `next`
/// on, from the last middle position to the first.
pub open spec fn unmoved_handle(rights: Seq<Handle>, next: Handle, z: Zones, n: int, i: int) -> Handle {
    if i < z.prefix {
        rights[i]
    } else if i < z.new_end {
        (next + (z.new_end - 1 - i)) as Handle
    } else {
        rights[i - n + rights.len()]
    }
}

/// The handles that a keyed reconciliation without relocation gives to `n`
/// new nodes.
pub open spec fn unmoved_handles(rights: Seq<Handle>, next: Handle, z: Zones, n: nat) -> Seq<Handle> {
    Seq::new(n, |i: int| unmoved_handle(rights, next, z, n as int, i))
}

/// Where a keyed reconciliation of the new keys `news` may start that is to
/// keep the rendered order: the old nodes, with the keys `olds`, stand side
/// by side, and enough handles are left for the new middle.
pub open spec fn keyed_start(
    news: Seq<Key>,
    olds: Seq<Key>,
    pre: Seq<Handle>,
    rights: Seq<Handle>,
    post: Seq<Handle>,
    next: Handle,
) -> bool {
    &&& side_by_side(pre, rights, post, next)
    &&& rights.len() == olds.len()
    &&& news.len() <= usize::MAX
    &&& olds.len() <= usize::MAX
    &&& next + (zones(news, olds).new_end - zones(news, olds).prefix) <= u64::MAX
}

/// The scene in which the old nodes stand side by side and nothing is
/// rendered yet of `n` new nodes.
pub open spec fn start_scene(
    pre: Seq<Handle>,
    rights: Seq<Handle>,
    post: Seq<Handle>,
    next: Handle,
    n: nat,
) -> Scene {
    Scene { children: pre + rights + post, next, anchor: anchor_of(post), placed: unplaced(n) }
}

/// The scene once the tail has been patched in place.
spec fn after_tail(
    news: Seq<Key>,
    olds: Seq<Key>,
    pre: Seq<Handle>,
    rights: Seq<Handle>,
    post: Seq<Handle>,
    next: Handle,
) -> Scene {
    kept(
        start_scene(pre, rights, post, next, news.len()),
        rights,
        news.len() - 1,
        olds.len() - 1,
        zones(news, olds).suffix,
    )
}

/// The scene once the new middle has been created.
spec fn after_middle(
    news: Seq<Key>,
    olds: Seq<Key>,
    pre: Seq<Handle>,
    rights: Seq<Handle>,
    post: Seq<Handle>,
    next: Handle,
) -> Scene {
    let z = zones(news, olds);
    made(
        after_tail(news, olds, pre, rights, post, next),
        z.new_end - 1,
        z.new_end - z.prefix,
        pre.len() + z.old_end,
    )
}

/// The scene once the old middle has been detached.
spec fn after_cleanup(
    news: Seq<Key>,
    olds: Seq<Key>,
    pre: Seq<Handle>,
    rights: Seq<Handle>,
    post: Seq<Handle>,
    next: Handle,
) -> Scene {
    let z = zones(news, olds);
    dropped(
        after_middle(news, olds, pre, rights, post, next),
        z.old_end - z.prefix,
        pre.len() + z.prefix,
    )
}

/// The scene once the head has been patched in place.
spec fn after_head(
    news: Seq<Key>,
    olds: Seq<Key>,
    pre: Seq<Handle>,
    rights: Seq<Handle>,
    post: Seq<Handle>,
    next: Handle,
) -> Scene {
    let z = zones(news, olds);
    kept(
        after_cleanup(news, olds, pre, rights, post, next),
        rights,
        z.prefix - 1,
        z.prefix - 1,
        z.prefix,
    )
}

proof fn lemma_unmoved_tail_middle(
    news: Seq<Key>,
    olds: Seq<Key>,
    pre: Seq<Handle>,
    rights: Seq<Handle>,
    post: Seq<Handle>,
    next: Handle,
)
    requires
        keyed_start(news, olds, pre, rights, post, next),
    ensures
        ({
            let z = zones(news, olds);
            let start = start_scene(pre, rights, post, next, news.len());
            let s1 = after_tail(news, olds, pre, rights, post, next);
            let s2 = after_middle(news, olds, pre, rights, post, next);
            &&& replay(start, keeps(news.len() - 1, olds.len() - 1, z.suffix), rights) == Ok::<
                Scene,
                RenderError,
            >(s1)
            &&& replay(s1, makes(z.new_end - 1, z.new_end - z.prefix), rights) == Ok::<
                Scene,
                RenderError,
            >(s2)
            &&& s2.children.no_duplicates()
        }),
{
    let n = news.len() as int;
    let m = olds.len() as int;
    let z = zones(news, olds);
    lemma_zones(news, olds);
    let start = start_scene(pre, rights, post, next, news.len());
    lemma_keeps(start, rights, n - 1, m - 1, z.suffix);
    let s1 = after_tail(news, olds, pre, rights, post, next);
    let at = pre.len() + z.old_end;
    assert(at < start.children.len() ==> s1.anchor == Some(start.children[at])) by {
        if z.suffix > 0 {
            assert(start.children[at] == rights[z.old_end]);
        } else if post.len() > 0 {
            assert(start.children[at] == post[0]);
        }
    }
    lemma_makes(s1, rights, z.new_end - 1, z.new_end - z.prefix, at);
}

proof fn lemma_unmoved_cleanup_head(
    news: Seq<Key>,
    olds: Seq<Key>,
    pre: Seq<Handle>,
    rights: Seq<Handle>,
    post: Seq<Handle>,
    next: Handle,
)
    requires
        keyed_start(news, olds, pre, rights, post, next),
        after_middle(news, olds, pre, rights, post, next).children.no_duplicates(),
    ensures
        ({
            let z = zones(news, olds);
            let s2 = after_middle(news, olds, pre, rights, post, next);
            let s3 = after_cleanup(news, olds, pre, rights, post, next);
            let s4 = after_head(news, olds, pre, rights, post, next);
            &&& replay(s2, drops(z.old_end - 1, z.old_end - z.prefix), rights) == Ok::<
                Scene,
                RenderError,
            >(s3)
            &&& replay(s3, keeps(z.prefix - 1, z.prefix - 1, z.prefix), rights) == Ok::<
                Scene,
                RenderError,
            >(s4)
        }),
{
    let z = zones(news, olds);
    lemma_zones(news, olds);
    let start = start_scene(pre, rights, post, next, news.len());
    let s2 = after_middle(news, olds, pre, rights, post, next);
    let from = pre.len() + z.prefix;
    assert forall|x: int| from <= x < from + (z.old_end - z.prefix) implies #[trigger] s2.children[x]
        == rights[x - from + (z.old_end - 1) - (z.old_end - z.prefix) + 1] by {
        assert(s2.children[x] == start.children[x]);
    }
    lemma_drops(s2, rights, z.old_end - 1, z.old_end - z.prefix, from);
    let s3 = after_cleanup(news, olds, pre, rights, post, next);
    lemma_keeps(s3, rights, z.prefix - 1, z.prefix - 1, z.prefix);
}

proof fn lemma_unmoved_end(
    news: Seq<Key>,
    olds: Seq<Key>,
    pre: Seq<Handle>,
    rights: Seq<Handle>,
    post: Seq<Handle>,
    next: Handle,
)
    requires
        keyed_start(news, olds, pre, rights, post, next),
    ensures
        after_head(news, olds, pre, rights, post, next) == (Scene {
            children: pre + unmoved_handles(rights, next, zones(news, olds), news.len()) + post,
            next: (next + (zones(news, olds).new_end - zones(news, olds).prefix)) as Handle,
            anchor: if news.len() > 0 {
                Some(unmoved_handles(rights, next, zones(news, olds), news.len())[0])
            } else {
                anchor_of(post)
            },
            placed: unmoved_handles(rights, next, zones(news, olds), news.len()).map_values(
                |h: Handle| Some(h),
            ),
        }),
{
    let z = zones(news, olds);
    lemma_zones(news, olds);
    let s4 = after_head(news, olds, pre, rights, post, next);
    let handles = unmoved_handles(rights, next, z, news.len());
    assert(s4.children =~= pre + handles + post);
    assert(s4.placed =~= handles.map_values(|h: Handle| Some(h)));
}

/// Order preservation of keyed reconciliation without relocation.
///
/// Let the old nodes stand side by side in a parent, before the anchor, and
/// let the keyed script for the new keys count no relocation: as it does
/// where the keys are the same as before, where one key was put in or
/// taken out, and wherever all that changed lies between a head and a tail
/// that kept their keys. Then the script runs without failure, and
/// afterwards the new nodes stand in their order exactly where the old
/// ones stood: head and tail have taken over the handles of the old head
/// and tail, the middle is new, and the old middle is gone. The anchor ends
/// up on the first new node.
pub proof fn lemma_keyed_unmoved_in_place(
    news: Seq<Key>,
    olds: Seq<Key>,
    pre: Seq<Handle>,
    rights: Seq<Handle>,
    post: Seq<Handle>,
    next: Handle,
)
    requires
        keyed_start(news, olds, pre, rights, post, next),
        moves(keyed_script(news, olds)) == 0,
    ensures
        replay(
            start_scene(pre, rights, post, next, news.len()),
            keyed_script(news, olds),
            rights,
        ) == Ok::<Scene, RenderError>(
            Scene {
                children: pre + unmoved_handles(rights, next, zones(news, olds), news.len()) + post,
                next: (next + (zones(news, olds).new_end - zones(news, olds).prefix)) as Handle,
                anchor: if news.len() > 0 {
                    Some(unmoved_handles(rights, next, zones(news, olds), news.len())[0])
                } else {
                    anchor_of(post)
                },
                placed: unmoved_handles(rights, next, zones(news, olds), news.len()).map_values(
                    |h: Handle| Some(h),
                ),
            },
        ),
{
    let z = zones(news, olds);
    lemma_unmoved_script(news, olds);
    let tail = keeps(news.len() - 1, olds.len() - 1, z.suffix);
    let middle = makes(z.new_end - 1, z.new_end - z.prefix);
    let cleanup = drops(z.old_end - 1, z.old_end - z.prefix);
    let head = keeps(z.prefix - 1, z.prefix - 1, z.prefix);
    let start = start_scene(pre, rights, post, next, news.len());
    lemma_unmoved_tail_middle(news, olds, pre, rights, post, next);
    lemma_unmoved_cleanup_head(news, olds, pre, rights, post, next);
    lemma_unmoved_end(news, olds, pre, rights, post, next);
    lemma_replay_add(start, tail, middle, rights);
    lemma_replay_add(start, tail + middle, cleanup, rights);
    lemma_replay_add(start, tail + middle + cleanup, head, rights);
}

/// `children` with `nodes` put in, in their order, before `anchor`, or at
/// the end where there is no anchor.
pub open spec fn with_block(children: Seq<Handle>, nodes: Seq<Handle>, anchor: Option<Handle>) -> Seq<
    Handle,
> {
    match anchor {
        Some(a) => children.take(children.index_of(a)) + nodes + children.skip(
            children.index_of(a),
        ),
        None => children + nodes,
    }
}

/// Shifting keeps the order: nodes that come from elsewhere end up side by
/// side, in their order, immediately before the anchor, and the children
/// that were there stay as they were.
pub proof fn lemma_shift_in_order(children: Seq<Handle>, nodes: Seq<Handle>, anchor: Option<Handle>)
    requires
        children.no_duplicates(),
        nodes.no_duplicates(),
        forall|i: int| 0 <= i < nodes.len() ==> !children.contains(#[trigger] nodes[i]),
        anchor matches Some(a) ==> children.contains(a),
    ensures
        shifted(children, nodes, anchor) == with_block(children, nodes, anchor),
    decreases nodes.len(),
{
    if nodes.len() == 0 {
        match anchor {
            Some(a) => {
                assert(children.take(children.index_of(a)) + nodes + children.skip(
                    children.index_of(a),
                ) =~= children);
            },
            None => {
                assert(children + nodes =~= children);
            },
        }
    } else {
        let last = nodes.last();
        let front = nodes.drop_last();
        let next = placed_before(children, last, anchor);
        assert(!children.contains(last));
        assert(without(children, last) == children);
        lemma_placed_before(children, last, anchor);
        let at = match anchor {
            Some(a) => children.index_of(a),
            None => children.len() as int,
        };
        assert(0 <= at <= children.len());
        assert(next =~= children.insert(at, last)) by {
            if anchor is None {
                assert(children.push(last) =~= children.insert(at, last));
            }
        }
        assert(next[at] == last);
        lemma_index_of(next, at);
        assert forall|i: int| 0 <= i < front.len() implies !next.contains(#[trigger] front[i]) by {
            assert(front[i] == nodes[i]);
            assert(nodes[i] != nodes[nodes.len() - 1]);
        }
        lemma_shift_in_order(next, front, Some(last));
        assert(nodes =~= front.push(last));
        assert(next.take(at) + front + next.skip(at) =~= with_block(children, nodes, anchor));
    }
}

} // verus!
