//! Runs of like steps, and what each does to a rendering target.
use vstd::prelude::*;
use crate::dom::{advance, lemma_index_of, replay, without, Handle, RenderError, Scene};
use crate::script::{drops, keeps, makes, Step};

verus! {

/// Running a script and then one more step is running the script with the
/// step at its end.
pub proof fn lemma_replay_push(scene: Scene, script: Seq<Step>, step: Step, rights: Seq<Handle>)
    ensures
        replay(scene, script.push(step), rights) == match replay(scene, script, rights) {
            Ok(after) => advance(after, step, rights),
            Err(e) => Err(e),
        },
    decreases script.len(),
{
    let longer = script.push(step);
    if script.len() == 0 {
        assert(longer.drop_first() =~= Seq::<Step>::empty());
        match advance(scene, step, rights) {
            Ok(after) => {
                assert(replay(after, longer.drop_first(), rights) == Ok::<Scene, RenderError>(
                    after,
                ));
            },
            Err(e) => {},
        }
    } else {
        assert(longer[0] == script[0]);
        assert(longer.drop_first() =~= script.drop_first().push(step));
        match advance(scene, script[0], rights) {
            Ok(after) => {
                lemma_replay_push(after, script.drop_first(), step, rights);
            },
            Err(e) => {},
        }
    }
}

/// Running one script after another is running the two as one.
pub proof fn lemma_replay_add(scene: Scene, first: Seq<Step>, second: Seq<Step>, rights: Seq<Handle>)
    ensures
        replay(scene, first + second, rights) == match replay(scene, first, rights) {
            Ok(mid) => replay(mid, second, rights),
            Err(e) => Err(e),
        },
    decreases second.len(),
{
    if second.len() == 0 {
        assert(first + second =~= first);
    } else {
        let front = second.drop_last();
        let last = second.last();
        assert(first + second =~= (first + front).push(last));
        assert(second =~= front.push(last));
        lemma_replay_add(scene, first, front, rights);
        lemma_replay_push(scene, first + front, last, rights);
        match replay(scene, first, rights) {
            Ok(mid) => {
                lemma_replay_push(mid, front, last, rights);
            },
            Err(e) => {},
        }
    }
}

/// The scene after `keeps(i, j, c)`: every node patched has the handle of
/// its ancestor, the anchor is on the last of them, and the children are
/// what they were.
pub open spec fn kept(scene: Scene, rights: Seq<Handle>, i: int, j: int, c: int) -> Scene {
    Scene {
        children: scene.children,
        next: scene.next,
        anchor: if c > 0 {
            Some(rights[j - c + 1])
        } else {
            scene.anchor
        },
        placed: Seq::new(
            scene.placed.len(),
            |x: int|
                if i - c < x <= i {
                    Some(rights[x - i + j])
                } else {
                    scene.placed[x]
                },
        ),
    }
}

/// Patches in place leave the children alone.
pub proof fn lemma_keeps(scene: Scene, rights: Seq<Handle>, i: int, j: int, c: int)
    requires
        0 <= c,
        c - 1 <= i < scene.placed.len() <= usize::MAX,
        c - 1 <= j < rights.len() <= usize::MAX,
    ensures
        replay(scene, keeps(i, j, c), rights) == Ok::<Scene, RenderError>(
            kept(scene, rights, i, j, c),
        ),
    decreases c,
{
    if c == 0 {
        assert(keeps(i, j, c) =~= Seq::<Step>::empty());
        assert(kept(scene, rights, i, j, c).placed =~= scene.placed);
    } else {
        lemma_keeps(scene, rights, i, j, c - 1);
        let step = Step::keep(i - c + 1, j - c + 1);
        assert(keeps(i, j, c) =~= keeps(i, j, c - 1).push(step));
        lemma_replay_push(scene, keeps(i, j, c - 1), step, rights);
        let before = kept(scene, rights, i, j, c - 1);
        let after = kept(scene, rights, i, j, c);
        assert(before.placed.update(i - c + 1, Some(rights[j - c + 1])) =~= after.placed);
    }
}

/// The handles of `c` nodes created one after the other from right to
/// left, in their order from left to right.
pub open spec fn made_handles(next: Handle, c: int) -> Seq<Handle> {
    Seq::new(c as nat, |x: int| (next + (c - 1 - x)) as Handle)
}

/// The scene after `makes(i, c)` where the anchor stood at index `at` of
/// the children: the created nodes stand there side by side, the anchor is
/// on the first of them.
pub open spec fn made(scene: Scene, i: int, c: int, at: int) -> Scene {
    Scene {
        children: scene.children.take(at) + made_handles(scene.next, c) + scene.children.skip(at),
        next: (scene.next + c) as Handle,
        anchor: if c > 0 {
            Some((scene.next + c - 1) as Handle)
        } else {
            scene.anchor
        },
        placed: Seq::new(
            scene.placed.len(),
            |x: int|
                if i - c < x <= i {
                    Some((scene.next + (i - x)) as Handle)
                } else {
                    scene.placed[x]
                },
        ),
    }
}

/// Whether the anchor of `scene` stands at index `at` of the children, the
/// end counting as the place of no anchor.
pub open spec fn anchored_at(scene: Scene, at: int) -> bool {
    &&& 0 <= at <= scene.children.len()
    &&& (at < scene.children.len() ==> scene.anchor == Some(scene.children[at]))
    &&& (at == scene.children.len() ==> scene.anchor is None)
}

/// Whether no child stands twice in `scene` and every child was created.
pub open spec fn tidy(scene: Scene) -> bool {
    &&& scene.children.no_duplicates()
    &&& forall|x: int| 0 <= x < scene.children.len() ==> scene.children[x] < scene.next
}

/// Nodes created one after the other stand side by side before the anchor,
/// in the order of their positions.
pub proof fn lemma_makes(scene: Scene, rights: Seq<Handle>, i: int, c: int, at: int)
    requires
        0 <= c,
        c - 1 <= i < scene.placed.len() <= usize::MAX,
        tidy(scene),
        anchored_at(scene, at),
        scene.next + c <= u64::MAX,
    ensures
        replay(scene, makes(i, c), rights) == Ok::<Scene, RenderError>(made(scene, i, c, at)),
        tidy(made(scene, i, c, at)),
    decreases c,
{
    let after = made(scene, i, c, at);
    if c == 0 {
        assert(makes(i, c) =~= Seq::<Step>::empty());
        assert(after.placed =~= scene.placed);
        assert(after.children =~= scene.children);
    } else {
        lemma_makes(scene, rights, i, c - 1, at);
        let step = Step::Create { node: (i - c + 1) as usize };
        assert(makes(i, c) =~= makes(i, c - 1).push(step));
        lemma_replay_push(scene, makes(i, c - 1), step, rights);
        let before = made(scene, i, c - 1, at);
        let fresh = before.next;
        assert(fresh == scene.next + c - 1);
        assert(!before.children.contains(fresh)) by {
            if before.children.contains(fresh) {
                let x = before.children.index_of(fresh);
                assert(before.children[x] == fresh);
            }
        }
        assert(without(before.children, fresh) == before.children);
        assert(at <= before.children.len());
        if before.anchor is Some {
            assert(before.children[at] == before.anchor.unwrap()) by {
                if c - 1 > 0 {
                    assert(before.children[at] == made_handles(scene.next, c - 1)[0]);
                } else {
                    assert(before.children[at] == scene.children[at]);
                }
            }
            lemma_index_of(before.children, at);
            assert(before.children.insert(at, fresh) =~= after.children);
        } else {
            assert(c - 1 == 0 && at == scene.children.len());
            assert(before.children.push(fresh) =~= after.children);
        }
        assert(before.placed.update(i - c + 1, Some(fresh)) =~= after.placed);
        assert(advance(before, step, rights) == Ok::<Scene, RenderError>(after));
        assert forall|x: int, y: int|
            0 <= x < after.children.len() && 0 <= y < after.children.len() && x
                != y implies after.children[x] != after.children[y] by {
            let bx = if x < at { x } else { x - 1 };
            let by = if y < at { y } else { y - 1 };
            if x != at && y != at {
                assert(after.children[x] == before.children[bx]);
                assert(after.children[y] == before.children[by]);
            } else if x == at {
                assert(after.children[y] == before.children[by]);
                assert(before.children.contains(before.children[by]));
            } else {
                assert(after.children[x] == before.children[bx]);
                assert(before.children.contains(before.children[bx]));
            }
        }
        assert forall|x: int| 0 <= x < after.children.len() implies after.children[x]
            < after.next by {
            if x != at {
                let bx = if x < at { x } else { x - 1 };
                assert(after.children[x] == before.children[bx]);
            }
        }
    }
}

/// The scene after `drops(j, c)` where the first of the old nodes stood at
/// index `at` of the children, and the others behind it.
pub open spec fn dropped(scene: Scene, c: int, at: int) -> Scene {
    Scene {
        children: scene.children.take(at) + scene.children.skip(at + c),
        next: scene.next,
        anchor: scene.anchor,
        placed: scene.placed,
    }
}

/// Old nodes that stand side by side leave a gap that closes: what stood
/// around them stays as it was.
pub proof fn lemma_drops(scene: Scene, rights: Seq<Handle>, j: int, c: int, at: int)
    requires
        0 <= c,
        c - 1 <= j < rights.len() <= usize::MAX,
        scene.children.no_duplicates(),
        0 <= at,
        at + c <= scene.children.len(),
        forall|x: int|
            at <= x < at + c ==> #[trigger] scene.children[x] == rights[x - at + j - c + 1],
    ensures
        replay(scene, drops(j, c), rights) == Ok::<Scene, RenderError>(dropped(scene, c, at)),
    decreases c,
{
    let after = dropped(scene, c, at);
    if c == 0 {
        assert(drops(j, c) =~= Seq::<Step>::empty());
        assert(after.children =~= scene.children);
    } else {
        // The rightmost goes first: what is left is a run of one less.
        let step = Step::Detach { ancestor: j as usize };
        let rest = drops(j - 1, c - 1);
        assert(drops(j, c) =~= seq![step] + rest);
        assert(drops(j, c)[0] == step);
        assert(drops(j, c).drop_first() =~= rest);
        let last = at + c - 1;
        assert(scene.children[last] == rights[j]);
        lemma_index_of(scene.children, last);
        let mid = Scene {
            children: scene.children.remove(last),
            next: scene.next,
            anchor: scene.anchor,
            placed: scene.placed,
        };
        assert(advance(scene, step, rights) == Ok::<Scene, RenderError>(mid));
        assert forall|x: int, y: int|
            0 <= x < mid.children.len() && 0 <= y < mid.children.len() && x
                != y implies mid.children[x] != mid.children[y] by {
            let sx = if x < last { x } else { x + 1 };
            let sy = if y < last { y } else { y + 1 };
            assert(mid.children[x] == scene.children[sx]);
            assert(mid.children[y] == scene.children[sy]);
        }
        assert forall|x: int| at <= x < at + c - 1 implies #[trigger] mid.children[x] == rights[x
            - at + (j - 1) - (c - 1) + 1] by {
            assert(mid.children[x] == scene.children[x]);
        }
        lemma_drops(mid, rights, j - 1, c - 1, at);
        assert(dropped(mid, c - 1, at).children =~= after.children);
    }
}

} // verus!
