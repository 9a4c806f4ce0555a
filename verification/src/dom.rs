//! A rendering target in miniature: one parent whose children are handles
//! in rendering order.
//!
//! It holds what reconciliation needs of a live tree, no more: handles can
//! be created, placed before an anchor, and removed.
use vstd::prelude::*;
use crate::script::Step;

verus! {

/// Names one rendered node.
pub type Handle = u64;

/// Why the rendering target refused a mutation.
#[derive(Clone, Copy, Debug, PartialEq, Eq, Structural)]
pub enum RenderError {
    /// A handle was named that the parent does not hold, or that was never
    /// created.
    NotFound,
    /// Every handle has been handed out.
    Exhausted,
    /// A script named a position that its lists do not have.
    OutOfRange,
}

/// `children` with `node` taken out.
pub open spec fn without(children: Seq<Handle>, node: Handle) -> Seq<Handle> {
    if children.contains(node) {
        children.remove(children.index_of(node))
    } else {
        children
    }
}

/// `children` once `node` has been put immediately before `anchor`, or at
/// the end where there is no anchor. A node that was a child already leaves
/// its old place.
pub open spec fn placed_before(children: Seq<Handle>, node: Handle, anchor: Option<Handle>) -> Seq<
    Handle,
> {
    match anchor {
        Some(a) => if a == node {
            children
        } else {
            without(children, node).insert(without(children, node).index_of(a), node)
        },
        None => without(children, node).push(node),
    }
}

/// In a sequence without duplicates an element stands at one index only.
pub proof fn lemma_index_of(children: Seq<Handle>, i: int)
    requires
        children.no_duplicates(),
        0 <= i < children.len(),
    ensures
        children.index_of(children[i]) == i,
        children.contains(children[i]),
{
    let j = children.index_of(children[i]);
    assert(0 <= j < children.len() && children[j] == children[i]);
}

/// Taking a node out of a sequence without duplicates leaves one without
/// duplicates that lacks the node and holds every other element still.
pub proof fn lemma_without(children: Seq<Handle>, node: Handle)
    requires
        children.no_duplicates(),
    ensures
        without(children, node).no_duplicates(),
        !without(children, node).contains(node),
        forall|h: Handle| h != node ==> (without(children, node).contains(h) <==> children.contains(h)),
        children.contains(node) ==> without(children, node).len() == children.len() - 1,
{
    let rest = without(children, node);
    if children.contains(node) {
        let at = children.index_of(node);
        assert forall|i: int| 0 <= i < rest.len() implies #[trigger] rest[i] == children[if i
            < at {
            i
        } else {
            i + 1
        }] by {}
        assert forall|h: Handle| h != node && children.contains(h) implies rest.contains(h) by {
            let i = children.index_of(h);
            if i < at {
                assert(rest[i] == h);
            } else {
                assert(rest[i - 1] == h);
            }
        }
        assert forall|h: Handle| rest.contains(h) implies children.contains(h) && h != node by {
            let i = rest.index_of(h);
            assert(rest[i] == h);
            let k = if i < at { i } else { i + 1 };
            assert(children[k] == h);
        }
    }
}

/// Placing a node before an anchor that the others hold keeps a sequence
/// free of duplicates and adds nothing but the node.
pub proof fn lemma_placed_before(children: Seq<Handle>, node: Handle, anchor: Option<Handle>)
    requires
        children.no_duplicates(),
        anchor matches Some(a) ==> children.contains(a),
    ensures
        placed_before(children, node, anchor).no_duplicates(),
        forall|h: Handle|
            placed_before(children, node, anchor).contains(h) <==> (children.contains(h) || (h
                == node && anchor != Some(node))),
{
    lemma_without(children, node);
    let rest = without(children, node);
    let out = placed_before(children, node, anchor);
    match anchor {
        Some(a) => {
            if a != node {
                let at = rest.index_of(a);
                assert(rest.contains(a));
                assert(0 <= at < rest.len());
                assert forall|i: int| 0 <= i < out.len() implies #[trigger] out[i] == (if i < at {
                    rest[i]
                } else if i == at {
                    node
                } else {
                    rest[i - 1]
                }) by {}
                assert(out.len() == rest.len() + 1);
                assert forall|i: int, j: int|
                    0 <= i < out.len() && 0 <= j < out.len() && i != j implies out[i] != out[j] by {
                    if i != at && j != at {
                        let x = if i < at { i } else { i - 1 };
                        let y = if j < at { j } else { j - 1 };
                        assert(rest[x] != rest[y]);
                    } else if i == at {
                        let y = if j < at { j } else { j - 1 };
                        assert(rest.contains(rest[y]));
                    } else {
                        let x = if i < at { i } else { i - 1 };
                        assert(rest.contains(rest[x]));
                    }
                }
                assert(out[at] == node);
                assert forall|h: Handle| rest.contains(h) implies out.contains(h) by {
                    let i = rest.index_of(h);
                    if i < at {
                        assert(out[i] == h);
                    } else {
                        assert(out[i + 1] == h);
                    }
                }
                assert forall|h: Handle| out.contains(h) implies rest.contains(h) || h == node by {
                    let i = out.index_of(h);
                    assert(out[i] == h);
                    if i < at {
                        assert(rest[i] == h);
                    } else if i > at {
                        assert(rest[i - 1] == h);
                    }
                }
            }
        },
        None => {
            assert forall|h: Handle| out.contains(h) implies rest.contains(h) || h == node by {
                let i = out.index_of(h);
                assert(out[i] == h);
                if i < rest.len() {
                    assert(rest[i] == h);
                }
            }
            assert forall|h: Handle| rest.contains(h) implies out.contains(h) by {
                let i = rest.index_of(h);
                assert(out[i] == h);
            }
            assert(out[rest.len() as int] == node);
            assert forall|i: int, j: int|
                0 <= i < out.len() && 0 <= j < out.len() && i != j implies out[i] != out[j] by {
                if i < rest.len() {
                    assert(rest.contains(rest[i]));
                }
                if j < rest.len() {
                    assert(rest.contains(rest[j]));
                }
            }
        },
    }
}

/// The parent of the nodes under reconciliation.
pub struct Parent {
    /// The handles of the parent's children, in rendering order.
    pub children: Vec<Handle>,
    /// The handle that the next created node gets.
    pub next: Handle,
}

impl Parent {
    /// No child stands twice, and no child has a handle that was not handed
    /// out yet.
    pub open spec fn wf(&self) -> bool {
        &&& self.children@.no_duplicates()
        &&& forall|i: int| 0 <= i < self.children@.len() ==> self.children@[i] < self.next
    }

    /// A parent without children.
    pub fn new() -> (parent: Parent)
        ensures
            parent.wf(),
            parent.children@ == Seq::<Handle>::empty(),
            parent.next == 0,
    {
        Parent { children: Vec::new(), next: 0 }
    }

    /// Where `node` stands among the children, if it is one.
    pub fn position(&self, node: Handle) -> (at: Option<usize>)
        requires
            self.wf(),
        ensures
            at is Some <==> self.children@.contains(node),
            at matches Some(i) ==> i < self.children@.len() && self.children@[i as int] == node
                && self.children@.index_of(node) == i,
    {
        let mut i: usize = 0;
        while i < self.children.len()
            invariant
                0 <= i <= self.children.len(),
                self.wf(),
                forall|k: int| 0 <= k < i ==> self.children@[k] != node,
            decreases self.children.len() - i,
        {
            if self.children[i] == node {
                proof {
                    lemma_index_of(self.children@, i as int);
                }
                return Some(i);
            }
            i += 1;
        }
        None
    }

    /// Creates a node, not yet a child of the parent, and returns its
    /// handle. Fails only when no handle is left.
    pub fn create(&mut self) -> (made: Result<Handle, RenderError>)
        requires
            old(self).wf(),
        ensures
            final(self).wf(),
            final(self).children@ == old(self).children@,
            old(self).next == u64::MAX ==> made == Err::<Handle, RenderError>(
                RenderError::Exhausted,
            ) && final(self).next == old(self).next,
            old(self).next < u64::MAX ==> made == Ok::<Handle, RenderError>(old(self).next)
                && final(self).next == old(self).next + 1,
    {
        if self.next == u64::MAX {
            return Err(RenderError::Exhausted);
        }
        let handle = self.next;
        self.next = handle + 1;
        Ok(handle)
    }

    /// Whether `insert_before` accepts `node` and `anchor`: the node was
    /// created, and the anchor, if there is one, is a child.
    pub open spec fn accepts(&self, node: Handle, anchor: Option<Handle>) -> bool {
        &&& node < self.next
        &&& anchor matches Some(a) ==> self.children@.contains(a)
    }

    /// Puts `node` immediately before the child `anchor`, or at the end
    /// where there is no anchor. A node that is a child already is moved.
    pub fn insert_before(&mut self, node: Handle, anchor: Option<Handle>) -> (done: Result<
        (),
        RenderError,
    >)
        requires
            old(self).wf(),
        ensures
            final(self).wf(),
            final(self).next == old(self).next,
            old(self).accepts(node, anchor) ==> done is Ok && final(self).children@
                == placed_before(old(self).children@, node, anchor),
            !old(self).accepts(node, anchor) ==> done == Err::<(), RenderError>(
                RenderError::NotFound,
            ) && final(self).children@ == old(self).children@,
    {
        if node >= self.next {
            return Err(RenderError::NotFound);
        }
        match anchor {
            Some(a) => {
                if self.position(a).is_none() {
                    return Err(RenderError::NotFound);
                }
                if a == node {
                    return Ok(());
                }
            },
            None => {},
        }
        proof {
            lemma_without(self.children@, node);
            lemma_placed_before(self.children@, node, anchor);
        }
        match self.position(node) {
            Some(was) => {
                self.children.remove(was);
            },
            None => {},
        }
        assert(self.children@ == without(old(self).children@, node));
        let at = match anchor {
            Some(a) => self.position(a),
            None => None,
        };
        match at {
            Some(at) => {
                self.children.insert(at, node);
            },
            None => {
                self.children.push(node);
            },
        }
        proof {
            let out = placed_before(old(self).children@, node, anchor);
            assert(self.children@ == out);
            assert forall|i: int| 0 <= i < out.len() implies out[i] < self.next by {
                assert(out.contains(out[i]));
                if out[i] != node {
                    let k = old(self).children@.index_of(out[i]);
                    assert(old(self).children@[k] == out[i]);
                }
            }
        }
        Ok(())
    }

    /// Takes the child `node` out of the parent.
    pub fn remove_child(&mut self, node: Handle) -> (done: Result<(), RenderError>)
        requires
            old(self).wf(),
        ensures
            final(self).wf(),
            final(self).next == old(self).next,
            final(self).children@ == without(old(self).children@, node),
            done is Ok <==> old(self).children@.contains(node),
            done is Err ==> done == Err::<(), RenderError>(RenderError::NotFound),
    {
        proof {
            lemma_without(self.children@, node);
        }
        match self.position(node) {
            Some(at) => {
                self.children.remove(at);
                proof {
                    let out = without(old(self).children@, node);
                    assert forall|i: int| 0 <= i < out.len() implies out[i] < self.next by {
                        assert(out.contains(out[i]));
                        let k = old(self).children@.index_of(out[i]);
                        assert(old(self).children@[k] == out[i]);
                    }
                }
                Ok(())
            },
            None => Err(RenderError::NotFound),
        }
    }
}

/// What a script works on: the parent's children, the handle that the next
/// created node gets, the insertion anchor, and the handle that each new
/// node has been given so far.
pub struct Scene {
    pub children: Seq<Handle>,
    pub next: Handle,
    pub anchor: Option<Handle>,
    pub placed: Seq<Option<Handle>>,
}

/// The handles of `n` new nodes before any of them has been given one.
pub open spec fn unplaced(n: nat) -> Seq<Option<Handle>> {
    Seq::new(n, |i: int| None::<Handle>)
}

/// The scene after `step`, or the reason why the step cannot be carried out.
/// `rights` holds the handle of each old node.
///
/// A created node gets the next handle, is put before the anchor and becomes
/// the anchor. A patched node takes over its ancestor's handle, which is
/// first put before the anchor if the step says so, and becomes the anchor.
/// A detached ancestor's handle leaves the parent.
pub open spec fn advance(scene: Scene, step: Step, rights: Seq<Handle>) -> Result<
    Scene,
    RenderError,
> {
    match step {
        Step::Create { node } => {
            if node >= scene.placed.len() {
                Err(RenderError::OutOfRange)
            } else if scene.next == u64::MAX {
                Err(RenderError::Exhausted)
            } else if scene.anchor is Some && !scene.children.contains(scene.anchor.unwrap()) {
                Err(RenderError::NotFound)
            } else {
                Ok(
                    Scene {
                        children: placed_before(scene.children, scene.next, scene.anchor),
                        next: (scene.next + 1) as Handle,
                        anchor: Some(scene.next),
                        placed: scene.placed.update(node as int, Some(scene.next)),
                    },
                )
            }
        },
        Step::Patch { node, ancestor, moved } => {
            if node >= scene.placed.len() || ancestor >= rights.len() {
                Err(RenderError::OutOfRange)
            } else if moved && (rights[ancestor as int] >= scene.next || (scene.anchor is Some
                && !scene.children.contains(scene.anchor.unwrap()))) {
                Err(RenderError::NotFound)
            } else {
                Ok(
                    Scene {
                        children: if moved {
                            placed_before(scene.children, rights[ancestor as int], scene.anchor)
                        } else {
                            scene.children
                        },
                        next: scene.next,
                        anchor: Some(rights[ancestor as int]),
                        placed: scene.placed.update(node as int, Some(rights[ancestor as int])),
                    },
                )
            }
        },
        Step::Detach { ancestor } => {
            if ancestor >= rights.len() {
                Err(RenderError::OutOfRange)
            } else if !scene.children.contains(rights[ancestor as int]) {
                Err(RenderError::NotFound)
            } else {
                Ok(
                    Scene {
                        children: without(scene.children, rights[ancestor as int]),
                        next: scene.next,
                        anchor: scene.anchor,
                        placed: scene.placed,
                    },
                )
            }
        },
    }
}

/// The scene after every step of `script`, front to back, or the reason why
/// the first step that cannot be carried out fails.
pub open spec fn replay(scene: Scene, script: Seq<Step>, rights: Seq<Handle>) -> Result<
    Scene,
    RenderError,
>
    decreases script.len(),
{
    if script.len() == 0 {
        Ok(scene)
    } else {
        match advance(scene, script[0], rights) {
            Ok(after) => replay(after, script.drop_first(), rights),
            Err(e) => Err(e),
        }
    }
}

/// The children once each of `nodes` has been put before the anchor, from
/// the last to the first, each becoming the anchor of the one before it.
pub open spec fn shifted(children: Seq<Handle>, nodes: Seq<Handle>, anchor: Option<Handle>) -> Seq<
    Handle,
>
    decreases nodes.len(),
{
    if nodes.len() == 0 {
        children
    } else {
        shifted(
            placed_before(children, nodes.last(), anchor),
            nodes.drop_last(),
            Some(nodes.last()),
        )
    }
}

/// Writes nodes into a parent from right to left: each node written becomes
/// the next sibling of the one written after it.
pub struct ElementWriter {
    /// The parent written into.
    pub parent: Parent,
    /// The insertion anchor: the child before which the next node goes, or
    /// none to write at the end.
    pub next_sibling: Option<Handle>,
}

impl ElementWriter {
    /// The scene that the writer stands in, with `placed` for the handles
    /// given so far.
    pub open spec fn scene(&self, placed: Seq<Option<Handle>>) -> Scene {
        Scene {
            children: self.parent.children@,
            next: self.parent.next,
            anchor: self.next_sibling,
            placed,
        }
    }

    /// A writer into `parent` that starts before `next_sibling`.
    pub fn new(parent: Parent, next_sibling: Option<Handle>) -> (writer: ElementWriter)
        ensures
            writer.parent == parent,
            writer.next_sibling == next_sibling,
    {
        ElementWriter { parent, next_sibling }
    }

    /// Why a node that was not rendered before cannot be written, if it
    /// cannot: no handle is left for it, or the next sibling is no child of
    /// the parent.
    pub open spec fn add_fails(&self) -> Option<RenderError> {
        if self.parent.next == u64::MAX {
            Some(RenderError::Exhausted)
        } else if self.next_sibling is Some && !self.parent.children@.contains(
            self.next_sibling.unwrap(),
        ) {
            Some(RenderError::NotFound)
        } else {
            None
        }
    }

    /// The writer after a node that was not rendered before has been
    /// written: the node has the next handle, stands immediately before the
    /// former next sibling, and is the next sibling itself.
    pub open spec fn added(&self, out: ElementWriter) -> bool {
        &&& out.parent.children@ == placed_before(
            self.parent.children@,
            self.parent.next,
            self.next_sibling,
        )
        &&& out.parent.next == self.parent.next + 1
        &&& out.next_sibling == Some(self.parent.next)
        &&& out.parent.wf()
    }

    /// Writes a node that was not rendered before.
    pub fn add(self) -> (out: Result<ElementWriter, RenderError>)
        requires
            self.parent.wf(),
        ensures
            match self.add_fails() {
                Some(e) => out == Err::<ElementWriter, RenderError>(e),
                None => out matches Ok(writer) && self.added(writer),
            },
    {
        self.write(None)
    }

    /// Writes a node over what was rendered as `ancestor`.
    pub fn patch(self, ancestor: Handle) -> (out: ElementWriter)
        requires
            self.parent.wf(),
        ensures
            out.parent == self.parent,
            out.next_sibling == Some(ancestor),
    {
        ElementWriter { parent: self.parent, next_sibling: Some(ancestor) }
    }

    /// Writes a node: over the handle of its ancestor where it has one,
    /// else under a new handle, placed before the next sibling. Either way
    /// the node's handle is the next sibling from then on.
    pub fn write(self, ancestor: Option<Handle>) -> (out: Result<ElementWriter, RenderError>)
        requires
            self.parent.wf(),
        ensures
            ancestor matches Some(h) ==> out matches Ok(writer) && writer.parent == self.parent
                && writer.next_sibling == Some(h),
            ancestor is None ==> match self.add_fails() {
                Some(e) => out == Err::<ElementWriter, RenderError>(e),
                None => out matches Ok(writer) && self.added(writer),
            },
    {
        match ancestor {
            Some(handle) => Ok(self.patch(handle)),
            None => {
                let mut parent = self.parent;
                let handle = match parent.create() {
                    Ok(handle) => handle,
                    Err(e) => {
                        return Err(e);
                    },
                };
                match parent.insert_before(handle, self.next_sibling) {
                    Ok(()) => {},
                    Err(e) => {
                        return Err(e);
                    },
                }
                Ok(ElementWriter { parent, next_sibling: Some(handle) })
            },
        }
    }

    /// Puts what was rendered as `node` immediately before the next sibling.
    pub fn move_before(&mut self, node: Handle) -> (done: Result<(), RenderError>)
        requires
            old(self).parent.wf(),
        ensures
            final(self).parent.wf(),
            final(self).parent.next == old(self).parent.next,
            final(self).next_sibling == old(self).next_sibling,
            old(self).parent.accepts(node, old(self).next_sibling) ==> done is Ok
                && final(self).parent.children@ == placed_before(
                old(self).parent.children@,
                node,
                old(self).next_sibling,
            ),
            !old(self).parent.accepts(node, old(self).next_sibling) ==> done == Err::<
                (),
                RenderError,
            >(RenderError::NotFound)
                && final(self).parent.children@ == old(self).parent.children@,
    {
        self.parent.insert_before(node, self.next_sibling)
    }

    /// Carries out `script` for `lefts` new nodes against the old nodes
    /// rendered as `rights`, and returns with the writer the handle that
    /// each new node was given. Stops at the first step that fails.
    pub fn run(self, script: &Vec<Step>, rights: &Vec<Handle>, lefts: usize) -> (out: Result<
        (ElementWriter, Vec<Option<Handle>>),
        RenderError,
    >)
        requires
            self.parent.wf(),
        ensures
            match replay(
                self.scene(unplaced(lefts as nat)),
                script@,
                rights@,
            ) {
                Ok(after) => out matches Ok(done) && done.0.parent.wf() && done.0.scene(done.1@)
                    == after,
                Err(e) => out == Err::<(ElementWriter, Vec<Option<Handle>>), RenderError>(e),
            },
    {
        let ghost start = self.scene(unplaced(lefts as nat));
        let mut placed: Vec<Option<Handle>> = Vec::new();
        let mut c: usize = 0;
        while c < lefts
            invariant
                0 <= c <= lefts,
                placed@ =~= unplaced(c as nat),
            decreases lefts - c,
        {
            placed.push(None);
            c += 1;
        }
        let mut writer = self;
        let mut k: usize = 0;
        proof {
            assert(script@.skip(0) =~= script@);
            assert(placed@ =~= start.placed);
        }
        while k < script.len()
            invariant
                0 <= k <= script.len(),
                writer.parent.wf(),
                placed@.len() == lefts,
                start == self.scene(unplaced(lefts as nat)),
                replay(start, script@, rights@) == replay(
                    writer.scene(placed@),
                    script@.skip(k as int),
                    rights@,
                ),
            decreases script.len() - k,
        {
            let ghost scene = writer.scene(placed@);
            proof {
                let rest = script@.skip(k as int);
                assert(rest[0] == script@[k as int]);
                assert(rest.drop_first() =~= script@.skip(k as int + 1));
                assert(replay(scene, rest, rights@) == match advance(scene, rest[0], rights@) {
                    Ok(after) => replay(after, rest.drop_first(), rights@),
                    Err(e) => Err(e),
                });
            }
            match script[k] {
                Step::Create { node } => {
                    if node >= lefts {
                        return Err(RenderError::OutOfRange);
                    }
                    writer = match writer.add() {
                        Ok(writer) => writer,
                        Err(e) => {
                            return Err(e);
                        },
                    };
                    placed.set(node, writer.next_sibling);
                },
                Step::Patch { node, ancestor, moved } => {
                    if node >= lefts || ancestor >= rights.len() {
                        return Err(RenderError::OutOfRange);
                    }
                    let handle = rights[ancestor];
                    if moved {
                        match writer.move_before(handle) {
                            Ok(()) => {},
                            Err(e) => {
                                return Err(e);
                            },
                        }
                    }
                    writer = writer.patch(handle);
                    placed.set(node, Some(handle));
                },
                Step::Detach { ancestor } => {
                    if ancestor >= rights.len() {
                        return Err(RenderError::OutOfRange);
                    }
                    match writer.parent.remove_child(rights[ancestor]) {
                        Ok(()) => {},
                        Err(e) => {
                            return Err(e);
                        },
                    }
                },
            }
            assert(advance(scene, script@[k as int], rights@) == Ok::<Scene, RenderError>(
                writer.scene(placed@),
            ));
            k += 1;
        }
        assert(script@.skip(k as int).len() == 0);
        Ok((writer, placed))
    }

    /// Whether the rendered nodes `nodes` can be shifted to before the next
    /// sibling: each of them was created, and the next sibling, if there is
    /// one and anything is to be shifted, is a child of the parent.
    pub open spec fn can_shift(&self, nodes: Seq<Handle>) -> bool {
        &&& forall|i: int| 0 <= i < nodes.len() ==> nodes[i] < self.parent.next
        &&& (nodes.len() > 0 ==> (self.next_sibling matches Some(a)
            ==> self.parent.children@.contains(a)))
    }

    /// Shifts what was rendered for a list, the handles `nodes` in rendering
    /// order, into this parent: each goes before the next sibling, from the
    /// last to the first, and is the next sibling of the one before it. A
    /// node that is a child of the parent already is moved.
    pub fn shift(self, nodes: &Vec<Handle>) -> (out: Result<ElementWriter, RenderError>)
        requires
            self.parent.wf(),
        ensures
            self.can_shift(nodes@) ==> (out matches Ok(writer) && writer.parent.wf()
                && writer.parent.next == self.parent.next && writer.parent.children@ == shifted(
                self.parent.children@,
                nodes@,
                self.next_sibling,
            ) && writer.next_sibling == (if nodes@.len() > 0 {
                Some(nodes@[0])
            } else {
                self.next_sibling
            })),
            !self.can_shift(nodes@) ==> out == Err::<ElementWriter, RenderError>(
                RenderError::NotFound,
            ),
    {
        let mut writer = self;
        let mut i: usize = nodes.len();
        proof {
            assert(nodes@.take(nodes@.len() as int) =~= nodes@);
        }
        while i > 0
            invariant
                0 <= i <= nodes.len(),
                writer.parent.wf(),
                writer.parent.next == self.parent.next,
                forall|k: int| i <= k < nodes.len() ==> nodes@[k] < self.parent.next,
                i < nodes.len() ==> (self.next_sibling matches Some(a)
                    ==> self.parent.children@.contains(a)),
                i < nodes.len() ==> writer.next_sibling == Some(nodes@[i as int])
                    && writer.parent.children@.contains(nodes@[i as int]),
                i == nodes.len() ==> writer == self,
                shifted(self.parent.children@, nodes@, self.next_sibling) == shifted(
                    writer.parent.children@,
                    nodes@.take(i as int),
                    writer.next_sibling,
                ),
            decreases i,
        {
            i -= 1;
            let node = nodes[i];
            proof {
                let rest = nodes@.take(i as int + 1);
                assert(rest.last() == node);
                assert(rest.drop_last() =~= nodes@.take(i as int));
                if writer.parent.accepts(node, writer.next_sibling) {
                    lemma_placed_before(writer.parent.children@, node, writer.next_sibling);
                }
            }
            match writer.move_before(node) {
                Ok(()) => {},
                Err(e) => {
                    return Err(e);
                },
            }
            writer.next_sibling = Some(node);
        }
        proof {
            assert(nodes@.take(0) =~= Seq::<Handle>::empty());
            if nodes@.len() == 0 {
                assert(self.can_shift(nodes@));
            }
        }
        Ok(writer)
    }
}

} // verus!