//! Scripts that deal with every node exactly once run on any sound
//! rendering target.
use vstd::prelude::*;
use crate::dom::{
    advance, lemma_placed_before, lemma_without, replay, Handle, RenderError, Scene,
};
use crate::keys::Key;
use crate::laws::{ends_on_first, lemma_keyed_ends_on_first, lemma_keyed_exact};
use crate::script::{exact, keyed_script, renders, Step};

verus! {

/// The number of nodes that `script` creates.
pub open spec fn creates(script: Seq<Step>) -> nat {
    script.filter(|s: Step| s is Create).len()
}

/// Whether `step` detaches the old node rendered as `h`.
pub open spec fn detaches_it(step: Step, rights: Seq<Handle>, h: Handle) -> bool {
    step is Detach && 0 <= step.origin().unwrap() < rights.len() && rights[step.origin().unwrap()]
        == h
}

/// Whether some step of `script` detaches the old node rendered as `h`.
pub open spec fn detaches(script: Seq<Step>, rights: Seq<Handle>, h: Handle) -> bool {
    exists|t: int| 0 <= t < script.len() && detaches_it(#[trigger] script[t], rights, h)
}

/// Whether `script` can start in `scene`: no child stands twice and every
/// child was created; the old nodes have handles of their own; no step
/// names a position beyond the lists; no two steps render one new node or
/// use up one old node; every old node that a step uses up is a child, and
/// is not the anchor; the anchor, if there is one, is a child; and enough
/// handles are left for the nodes to create.
pub open spec fn ready(scene: Scene, script: Seq<Step>, rights: Seq<Handle>) -> bool {
    &&& scene.children.no_duplicates()
    &&& forall|h: Handle| scene.children.contains(h) ==> h < scene.next
    &&& rights.no_duplicates()
    &&& forall|t: int|
        0 <= t < script.len() ==> ((#[trigger] script[t]).target() matches Some(i) ==> 0 <= i
            < scene.placed.len())
    &&& forall|t: int|
        0 <= t < script.len() ==> ((#[trigger] script[t]).origin() matches Some(j) ==> 0 <= j
            < rights.len() && scene.children.contains(rights[j]) && scene.anchor != Some(rights[j]))
    &&& forall|t: int, u: int|
        0 <= t < script.len() && 0 <= u < script.len() && t != u && (#[trigger] script[t]).target()
            is Some ==> script[t].target() != (#[trigger] script[u]).target()
    &&& forall|t: int, u: int|
        0 <= t < script.len() && 0 <= u < script.len() && t != u && (#[trigger] script[t]).origin()
            is Some ==> script[t].origin() != (#[trigger] script[u]).origin()
    &&& (scene.anchor matches Some(a) ==> scene.children.contains(a))
    &&& scene.next + creates(script) <= u64::MAX
}

/// The children after `script`: the former ones less those detached, and
/// the created ones, none twice.
pub open spec fn children_settled(
    scene: Scene,
    script: Seq<Step>,
    rights: Seq<Handle>,
    after: Scene,
) -> bool {
    &&& after.children.no_duplicates()
    &&& after.next == scene.next + creates(script)
    &&& forall|h: Handle|
        after.children.contains(h) <==> ((scene.children.contains(h) && !detaches(
            script,
            rights,
            h,
        )) || scene.next <= h < after.next)
}

/// The handle that `step` gives the node that it renders: that of the
/// ancestor where it patches, one handed out from `from` on where it
/// creates.
pub open spec fn given(step: Step, rights: Seq<Handle>, after: Scene, from: Handle) -> bool {
    match step {
        Step::Patch { node, ancestor, .. } => after.placed[node as int] == Some(
            rights[ancestor as int],
        ),
        Step::Create { node } => after.placed[node as int] matches Some(h) && from <= h
            < after.next,
        Step::Detach { .. } => true,
    }
}

/// The handles of the new nodes after `script`: each patched node has the
/// handle of its ancestor, each created node has one, and every other new
/// node has what it had.
pub open spec fn placed_settled(
    scene: Scene,
    script: Seq<Step>,
    rights: Seq<Handle>,
    after: Scene,
) -> bool {
    &&& after.placed.len() == scene.placed.len()
    &&& forall|t: int|
        0 <= t < script.len() ==> given(#[trigger] script[t], rights, after, scene.next)
    &&& forall|i: int|
        0 <= i < scene.placed.len() && !renders(script, i) ==> #[trigger] after.placed[i]
            == scene.placed[i]
}

/// Whether step `t` is the last of `script` that renders a node.
pub open spec fn renders_last(script: Seq<Step>, t: int) -> bool {
    &&& 0 <= t < script.len()
    &&& script[t].target() is Some
    &&& forall|u: int| t < u < script.len() ==> (#[trigger] script[u]).target() is None
}

/// Whether no step of `script` renders a node.
pub open spec fn renders_none(script: Seq<Step>) -> bool {
    forall|t: int| 0 <= t < script.len() ==> (#[trigger] script[t]).target() is None
}

/// The anchor after `script`: on the node rendered last, or where it was
/// if none was rendered.
pub open spec fn anchor_settled(scene: Scene, script: Seq<Step>, after: Scene) -> bool {
    &&& (renders_none(script) ==> after.anchor == scene.anchor)
    &&& forall|t: int| #[trigger]
        renders_last(script, t) ==> after.anchor == after.placed[script[t].target().unwrap()]
}

/// What `script` has made of `scene` when it has brought it to `after`.
pub open spec fn settled(scene: Scene, script: Seq<Step>, rights: Seq<Handle>, after: Scene) -> bool {
    &&& children_settled(scene, script, rights, after)
    &&& placed_settled(scene, script, rights, after)
    &&& anchor_settled(scene, script, after)
}

/// What the first step of a script that is ready makes of the scene.
pub open spec fn first_step(scene: Scene, script: Seq<Step>, rights: Seq<Handle>, mid: Scene) -> bool {
    let step = script[0];
    &&& advance(scene, step, rights) == Ok::<Scene, RenderError>(mid)
    &&& mid.children.no_duplicates()
    &&& mid.next == scene.next + (if step is Create {
        1int
    } else {
        0int
    })
    &&& mid.placed.len() == scene.placed.len()
    &&& forall|h: Handle|
        mid.children.contains(h) <==> ((scene.children.contains(h) && !detaches_it(step, rights, h))
            || (step is Create && h == scene.next))
    &&& forall|i: int|
        0 <= i < mid.placed.len() && step.target() != Some(i) ==> #[trigger] mid.placed[i]
            == scene.placed[i]
    &&& given(step, rights, mid, scene.next)
    &&& (step.target() matches Some(i) ==> mid.anchor == mid.placed[i] && mid.anchor is Some)
    &&& (step.target() is None ==> mid.anchor == scene.anchor)
}

proof fn lemma_creates_first(script: Seq<Step>)
    requires
        script.len() > 0,
    ensures
        creates(script) == creates(script.drop_first()) + (if script[0] is Create {
            1nat
        } else {
            0nat
        }),
{
    let pred = |s: Step| s is Create;
    assert(script =~= seq![script[0]] + script.drop_first());
    script.drop_first().lemma_filter_prepend(script[0], pred);
}

proof fn lemma_first_step(scene: Scene, script: Seq<Step>, rights: Seq<Handle>)
    requires
        ready(scene, script, rights),
        script.len() > 0,
    ensures
        advance(scene, script[0], rights) is Ok,
        first_step(scene, script, rights, advance(scene, script[0], rights).unwrap()),
{
    let step = script[0];
    lemma_creates_first(script);
    match step {
        Step::Create { node } => {
            lemma_placed_before(scene.children, scene.next, scene.anchor);
        },
        Step::Patch { node, ancestor, moved } => {
            lemma_placed_before(scene.children, rights[ancestor as int], scene.anchor);
        },
        Step::Detach { ancestor } => {
            lemma_without(scene.children, rights[ancestor as int]);
        },
    }
}

proof fn lemma_rest_ready(scene: Scene, script: Seq<Step>, rights: Seq<Handle>, mid: Scene)
    requires
        ready(scene, script, rights),
        script.len() > 0,
        first_step(scene, script, rights, mid),
    ensures
        ready(mid, script.drop_first(), rights),
{
    let step = script[0];
    let rest = script.drop_first();
    lemma_creates_first(script);
    assert forall|u: int| 0 <= u < rest.len() implies #[trigger] rest[u] == script[u + 1] by {}
    assert forall|u: int| 0 <= u < rest.len() implies ((#[trigger] rest[u]).origin() matches Some(
        j,
    ) ==> 0 <= j < rights.len() && mid.children.contains(rights[j]) && mid.anchor != Some(
        rights[j],
    )) by {
        assert(rest[u] == script[u + 1]);
        if rest[u].origin() is Some {
            let j = rest[u].origin().unwrap();
            assert(script[0].origin() is Some ==> script[0].origin() != script[u + 1].origin());
            assert(scene.children.contains(rights[j]));
            assert(rights[j] < scene.next);
            if step.origin() is Some {
                assert(rights[step.origin().unwrap()] != rights[j]);
            }
        }
    }
    assert forall|t: int, u: int|
        0 <= t < rest.len() && 0 <= u < rest.len() && t != u && (#[trigger] rest[t]).target()
            is Some implies rest[t].target() != (#[trigger] rest[u]).target() by {
        assert(rest[t] == script[t + 1] && rest[u] == script[u + 1]);
    }
    assert forall|t: int, u: int|
        0 <= t < rest.len() && 0 <= u < rest.len() && t != u && (#[trigger] rest[t]).origin()
            is Some implies rest[t].origin() != (#[trigger] rest[u]).origin() by {
        assert(rest[t] == script[t + 1] && rest[u] == script[u + 1]);
    }
    assert forall|t: int| 0 <= t < rest.len() implies ((#[trigger] rest[t]).target() matches Some(
        i,
    ) ==> 0 <= i < mid.placed.len()) by {
        assert(rest[t] == script[t + 1]);
    }
    if mid.anchor is Some {
        let a = mid.anchor.unwrap();
        match step {
            Step::Create { node } => {
                assert(mid.children.contains(a));
            },
            Step::Patch { node, ancestor, moved } => {
                assert(scene.children.contains(rights[ancestor as int]));
                assert(mid.children.contains(a));
            },
            Step::Detach { ancestor } => {
                assert(scene.anchor != Some(rights[ancestor as int]));
                assert(mid.children.contains(a));
            },
        }
    }
}

proof fn lemma_detaches_first(script: Seq<Step>, rights: Seq<Handle>, h: Handle)
    requires
        script.len() > 0,
    ensures
        detaches(script, rights, h) <==> (detaches_it(script[0], rights, h) || detaches(
            script.drop_first(),
            rights,
            h,
        )),
{
    let rest = script.drop_first();
    if detaches(script, rights, h) {
        let t = choose|t: int| 0 <= t < script.len() && detaches_it(#[trigger] script[t], rights, h);
        if t > 0 {
            assert(rest[t - 1] == script[t]);
        }
    }
    if detaches(rest, rights, h) {
        let t = choose|t: int| 0 <= t < rest.len() && detaches_it(#[trigger] rest[t], rights, h);
        assert(script[t + 1] == rest[t]);
    }
}

proof fn lemma_renders_first(script: Seq<Step>, i: int)
    requires
        script.len() > 0,
    ensures
        renders(script, i) <==> (script[0].target() == Some(i) || renders(script.drop_first(), i)),
{
    let rest = script.drop_first();
    if renders(script, i) {
        let t = choose|t: int| 0 <= t < script.len() && (#[trigger] script[t]).target() == Some(i);
        if t > 0 {
            assert(rest[t - 1] == script[t]);
        }
    }
    if renders(rest, i) {
        let t = choose|t: int| 0 <= t < rest.len() && (#[trigger] rest[t]).target() == Some(i);
        assert(script[t + 1] == rest[t]);
    }
}

proof fn lemma_children_settled(
    scene: Scene,
    script: Seq<Step>,
    rights: Seq<Handle>,
    mid: Scene,
    after: Scene,
)
    requires
        ready(scene, script, rights),
        script.len() > 0,
        first_step(scene, script, rights, mid),
        ready(mid, script.drop_first(), rights),
        children_settled(mid, script.drop_first(), rights, after),
    ensures
        children_settled(scene, script, rights, after),
{
    let step = script[0];
    let rest = script.drop_first();
    lemma_creates_first(script);
    assert forall|h: Handle|
        after.children.contains(h) <==> ((scene.children.contains(h) && !detaches(
            script,
            rights,
            h,
        )) || scene.next <= h < after.next) by {
        lemma_detaches_first(script, rights, h);
        if detaches(rest, rights, h) {
            let t = choose|t: int| 0 <= t < rest.len() && detaches_it(#[trigger] rest[t], rights, h);
            assert(mid.children.contains(h));
        }
        if scene.children.contains(h) {
            assert(h < scene.next);
        }
    }
}

proof fn lemma_placed_settled(
    scene: Scene,
    script: Seq<Step>,
    rights: Seq<Handle>,
    mid: Scene,
    after: Scene,
)
    requires
        ready(scene, script, rights),
        script.len() > 0,
        first_step(scene, script, rights, mid),
        placed_settled(mid, script.drop_first(), rights, after),
        after.next >= mid.next,
    ensures
        placed_settled(scene, script, rights, after),
        script[0].target() matches Some(i) ==> after.placed[i] == mid.placed[i],
{
    let step = script[0];
    let rest = script.drop_first();
    if step.target() is Some {
        let i = step.target().unwrap();
        lemma_renders_first(script, i);
        if renders(rest, i) {
            let t = choose|t: int| 0 <= t < rest.len() && (#[trigger] rest[t]).target() == Some(i);
            assert(script[t + 1] == rest[t]);
            assert(script[0].target() != script[t + 1].target());
        }
        assert(after.placed[i] == mid.placed[i]);
    }
    assert forall|t: int| 0 <= t < script.len() implies given(
        #[trigger] script[t],
        rights,
        after,
        scene.next,
    ) by {
        if t > 0 {
            assert(rest[t - 1] == script[t]);
            assert(given(rest[t - 1], rights, after, mid.next));
        }
    }
    assert forall|i: int|
        0 <= i < scene.placed.len() && !renders(script, i) implies #[trigger] after.placed[i]
            == scene.placed[i] by {
        lemma_renders_first(script, i);
        assert(after.placed[i] == mid.placed[i]);
    }
}

proof fn lemma_anchor_settled(
    scene: Scene,
    script: Seq<Step>,
    rights: Seq<Handle>,
    mid: Scene,
    after: Scene,
)
    requires
        script.len() > 0,
        first_step(scene, script, rights, mid),
        anchor_settled(mid, script.drop_first(), after),
        script[0].target() matches Some(i) ==> after.placed[i] == mid.placed[i],
    ensures
        anchor_settled(scene, script, after),
{
    let step = script[0];
    let rest = script.drop_first();
    assert forall|u: int| 0 <= u < rest.len() implies #[trigger] rest[u] == script[u + 1] by {}
    if renders_none(script) {
        assert(script[0].target() is None);
        assert forall|u: int| 0 <= u < rest.len() implies (#[trigger] rest[u]).target() is None by {
            assert(rest[u] == script[u + 1]);
        }
        assert(renders_none(rest));
    }
    assert forall|t: int| #[trigger] renders_last(script, t) implies after.anchor
        == after.placed[script[t].target().unwrap()] by {
        if t == 0 {
            assert forall|u: int| 0 <= u < rest.len() implies (#[trigger] rest[u]).target()
                is None by {
                assert(rest[u] == script[u + 1]);
            }
            assert(renders_none(rest));
        } else {
            assert(rest[t - 1] == script[t]);
            assert forall|u: int| t - 1 < u < rest.len() implies (#[trigger] rest[u]).target()
                is None by {
                assert(rest[u] == script[u + 1]);
            }
            assert(renders_last(rest, t - 1));
        }
    }
}

/// A script that is ready runs to its end without failure, and settles the
/// scene.
pub proof fn lemma_ready_runs(scene: Scene, script: Seq<Step>, rights: Seq<Handle>)
    requires
        ready(scene, script, rights),
    ensures
        replay(scene, script, rights) is Ok,
        settled(scene, script, rights, replay(scene, script, rights).unwrap()),
    decreases script.len(),
{
    if script.len() == 0 {
        let pred = |s: Step| s is Create;
        script.lemma_filter_len(pred);
    } else {
        lemma_first_step(scene, script, rights);
        let mid = advance(scene, script[0], rights).unwrap();
        let rest = script.drop_first();
        lemma_rest_ready(scene, script, rights, mid);
        lemma_ready_runs(mid, rest, rights);
        let after = replay(mid, rest, rights).unwrap();
        assert(replay(scene, script, rights) == Ok::<Scene, RenderError>(after));
        lemma_children_settled(scene, script, rights, mid, after);
        lemma_placed_settled(scene, script, rights, mid, after);
        lemma_anchor_settled(scene, script, rights, mid, after);
    }
}

/// Where a reconciliation may start, wherever the old nodes stand: no
/// child stands twice and every child was created; the old nodes have
/// handles of their own and are children; the anchor, if there is one, is a
/// child and none of the old nodes; a handle is kept for each of the `n` new
/// nodes; and enough handles are left for the nodes that `script` creates.
pub open spec fn sound(scene: Scene, script: Seq<Step>, rights: Seq<Handle>, n: int) -> bool {
    &&& scene.children.no_duplicates()
    &&& forall|h: Handle| scene.children.contains(h) ==> h < scene.next
    &&& rights.no_duplicates()
    &&& forall|j: int| 0 <= j < rights.len() ==> scene.children.contains(#[trigger] rights[j])
    &&& (scene.anchor matches Some(a) ==> scene.children.contains(a) && !rights.contains(a))
    &&& scene.placed.len() == n
    &&& scene.next + creates(script) <= u64::MAX
}

/// A script that deals with every node exactly once runs to its end without
/// failure from any sound scene, settles it, and leaves every new node with
/// a handle. Where the script renders the first new node last, the anchor
/// ends up on that node.
pub proof fn lemma_exact_runs(scene: Scene, script: Seq<Step>, rights: Seq<Handle>, n: int)
    requires
        sound(scene, script, rights, n),
        exact(script, n, rights.len() as int),
    ensures
        replay(scene, script, rights) is Ok,
        settled(scene, script, rights, replay(scene, script, rights).unwrap()),
        forall|i: int| 0 <= i < n ==> (#[trigger] replay(scene, script, rights).unwrap().placed[i])
            is Some,
        ends_on_first(script) ==> replay(scene, script, rights).unwrap().anchor == replay(
            scene,
            script,
            rights,
        ).unwrap().placed[0],
{
    assert forall|t: int| 0 <= t < script.len() implies ((#[trigger] script[t]).origin() matches Some(
        j,
    ) ==> 0 <= j < rights.len() && scene.children.contains(rights[j]) && scene.anchor != Some(
        rights[j],
    )) by {
        if script[t].origin() is Some {
            let j = script[t].origin().unwrap();
            assert(rights.contains(rights[j]));
        }
    }
    lemma_ready_runs(scene, script, rights);
    let after = replay(scene, script, rights).unwrap();
    assert forall|i: int| 0 <= i < n implies (#[trigger] after.placed[i]) is Some by {
        assert(renders(script, i));
        let t = choose|t: int| 0 <= t < script.len() && (#[trigger] script[t]).target() == Some(i);
        assert(given(script[t], rights, after, scene.next));
    }
    if ends_on_first(script) {
        let t = choose|t: int|
            0 <= t < script.len() && (#[trigger] script[t]).target() == Some(0int) && forall|u: int|
                t < u < script.len() ==> (#[trigger] script[u]).target() is None;
        assert(renders_last(script, t));
    }
}

/// Keyed reconciliation on a rendering target.
///
/// Whatever the keys and wherever the old nodes stand among the children,
/// the keyed script runs to its end without failure. Afterwards the
/// children are those from before, less the old nodes that the script
/// detached, and the nodes that it created; every new node has a handle,
/// that of its ancestor where it was patched; and the anchor is on the
/// first new node.
pub proof fn lemma_keyed_runs(news: Seq<Key>, olds: Seq<Key>, scene: Scene, rights: Seq<Handle>)
    requires
        0 < news.len() <= usize::MAX,
        olds.len() <= usize::MAX,
        rights.len() == olds.len(),
        sound(scene, keyed_script(news, olds), rights, news.len() as int),
    ensures
        replay(scene, keyed_script(news, olds), rights) is Ok,
        settled(
            scene,
            keyed_script(news, olds),
            rights,
            replay(scene, keyed_script(news, olds), rights).unwrap(),
        ),
        forall|i: int|
            0 <= i < news.len() ==> (#[trigger] replay(
                scene,
                keyed_script(news, olds),
                rights,
            ).unwrap().placed[i]) is Some,
        replay(scene, keyed_script(news, olds), rights).unwrap().anchor == replay(
            scene,
            keyed_script(news, olds),
            rights,
        ).unwrap().placed[0],
{
    lemma_keyed_exact(news, olds);
    lemma_keyed_ends_on_first(news, olds);
    lemma_exact_runs(scene, keyed_script(news, olds), rights, news.len() as int);
}

} // verus!
