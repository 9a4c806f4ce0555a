//! Fragments: ordered lists of child nodes.
use vstd::prelude::*;
use crate::keys::Key;
use crate::laws::ends_on_first;
use crate::script::{exact, keyed_script, unkeyed_script, Step};
use crate::vnode::{all_keyed, keys_of, VNode, VText};

verus! {

/// A fragment of the virtual tree: an ordered list of child nodes, rendered
/// in the order in which they were added.
#[derive(Debug, PartialEq)]
pub struct VList {
    /// The child nodes, in rendering order.
    children: Vec<VNode>,
    /// Set only while every child has a key.
    fully_keyed: bool,
    /// The fragment's own identity among its siblings.
    pub key: Option<Key>,
}

/// Whether every node of `children` has a key.
fn scan_keyed(children: &Vec<VNode>) -> (keyed: bool)
    ensures
        keyed == all_keyed(children@),
{
    let mut i: usize = 0;
    while i < children.len()
        invariant
            0 <= i <= children.len(),
            forall|k: int| 0 <= k < i ==> (#[trigger] children@[k]).spec_has_key(),
        decreases children.len() - i,
    {
        if !children[i].has_key() {
            return false;
        }
        i += 1;
    }
    true
}

/// The nodes that a list is reconciled against when `ancestor` was rendered
/// in its place: the children of a list, any other node by itself, or
/// nothing.
pub open spec fn previous_nodes(ancestor: Option<VNode>) -> Seq<VNode> {
    match ancestor {
        Some(VNode::VList(list)) => list.nodes(),
        Some(node) => seq![node],
        None => Seq::empty(),
    }
}

/// Whether what was rendered before counts as fully keyed: a list by its
/// cached flag, any other node by its own key, nothing always.
pub open spec fn previous_keyed(ancestor: Option<VNode>) -> bool {
    match ancestor {
        Some(VNode::VList(list)) => list.is_fully_keyed(),
        Some(node) => node.spec_has_key(),
        None => true,
    }
}

/// Whether `node` is the stand-in for the children of an empty list: a text
/// node without text.
pub open spec fn is_placeholder(node: VNode) -> bool {
    match node {
        VNode::VText(text) => text.text@.len() == 0,
        _ => false,
    }
}

impl VList {
    /// The child nodes, in rendering order.
    pub closed spec fn nodes(&self) -> Seq<VNode> {
        self.children@
    }

    /// The list's own identity key.
    pub closed spec fn own_key(&self) -> Option<Key> {
        self.key
    }

    /// The cached flag: when set, every child has a key.
    pub closed spec fn is_fully_keyed(&self) -> bool {
        self.fully_keyed
    }

    /// The cached flag never claims more than the children bear out.
    pub open spec fn wf(&self) -> bool {
        self.is_fully_keyed() ==> all_keyed(self.nodes())
    }

    /// Creates a new empty list.
    pub fn new() -> (list: VList)
        ensures
            list.nodes() == Seq::<VNode>::empty(),
            list.is_fully_keyed(),
            list.own_key().is_none(),
            list.wf(),
    {
        VList { children: Vec::new(), key: None, fully_keyed: true }
    }

    /// Creates a new list with the given children and key.
    pub fn with_children(children: Vec<VNode>, key: Option<Key>) -> (list: VList)
        ensures
            list.nodes() == children@,
            list.own_key() == key,
            list.is_fully_keyed() == all_keyed(children@),
            list.wf(),
    {
        VList { fully_keyed: scan_keyed(&children), children, key }
    }

    /// Appends a child.
    pub fn add_child(&mut self, child: VNode)
        requires
            old(self).wf(),
        ensures
            final(self).nodes() == old(self).nodes().push(child),
            final(self).is_fully_keyed() == (old(self).is_fully_keyed() && child.spec_has_key()),
            final(self).own_key() == old(self).own_key(),
            final(self).wf(),
    {
        if self.fully_keyed && !child.has_key() {
            self.fully_keyed = false;
        }
        self.children.push(child);
    }

    /// Appends several children, in their order.
    pub fn add_children(&mut self, children: Vec<VNode>)
        requires
            old(self).wf(),
        ensures
            final(self).nodes() == old(self).nodes() + children@,
            final(self).is_fully_keyed() == (old(self).is_fully_keyed() && all_keyed(children@)),
            final(self).own_key() == old(self).own_key(),
            final(self).wf(),
    {
        let mut children = children;
        if self.fully_keyed && !scan_keyed(&children) {
            self.fully_keyed = false;
        }
        self.children.append(&mut children);
    }

    /// Rescans the children and sets the cached flag to what they bear out.
    pub fn recheck_fully_keyed(&mut self)
        ensures
            final(self).nodes() == old(self).nodes(),
            final(self).is_fully_keyed() == all_keyed(old(self).nodes()),
            final(self).own_key() == old(self).own_key(),
            final(self).wf(),
    {
        self.fully_keyed = scan_keyed(&self.children);
    }

    /// Hands out the children for changes of any kind. Keys may change or
    /// unkeyed children arrive, so the cached flag is cleared; rescan with
    /// `recheck_fully_keyed` to set it again.
    pub fn children_mut(&mut self) -> (children: &mut Vec<VNode>)
        ensures
            children@ == old(self).nodes(),
            final(self).nodes() == final(children)@,
            !final(self).is_fully_keyed(),
            final(self).own_key() == old(self).own_key(),
    {
        self.fully_keyed = false;
        &mut self.children
    }

    /// Takes every child out of the list. The script detaches them all, from
    /// the first to the last; its positions are those of the children
    /// returned with it.
    pub fn detach(&mut self) -> (plan: (Vec<Step>, Vec<VNode>))
        ensures
            final(self).nodes() == Seq::<VNode>::empty(),
            final(self).is_fully_keyed() == old(self).is_fully_keyed(),
            final(self).own_key() == old(self).own_key(),
            plan.1@ == old(self).nodes(),
            plan.0@ == Seq::new(
                old(self).nodes().len(),
                |j: int| Step::Detach { ancestor: j as usize },
            ),
    {
        let mut rights: Vec<VNode> = Vec::new();
        rights.append(&mut self.children);
        let mut script: Vec<Step> = Vec::new();
        let mut j: usize = 0;
        while j < rights.len()
            invariant
                0 <= j <= rights.len(),
                script@ =~= Seq::new(j as nat, |j: int| Step::Detach { ancestor: j as usize }),
            decreases rights.len() - j,
        {
            script.push(Step::Detach { ancestor: j });
            j += 1;
        }
        (script, rights)
    }

    /// Reconciles this list, about to be rendered, against `ancestor`, which
    /// was rendered in its place before.
    ///
    /// A list without children first gets a text node without text as its
    /// only child, to hold its place among its siblings. The old side is
    /// `previous_nodes(ancestor)`, and is returned beside the script, whose
    /// ancestor positions refer to it. The script is that of keyed
    /// reconciliation where both sides are fully keyed, and that of
    /// positional reconciliation otherwise. Either way it deals with every
    /// child and every old node exactly once, and renders the first child
    /// last: the anchor that it leaves is on the first child.
    pub fn apply(&mut self, ancestor: Option<VNode>) -> (plan: (Vec<Step>, Vec<VNode>))
        requires
            old(self).wf(),
            ancestor matches Some(VNode::VList(list)) ==> list.wf(),
        ensures
            final(self).wf(),
            final(self).own_key() == old(self).own_key(),
            old(self).nodes().len() > 0 ==> final(self).nodes() == old(self).nodes()
                && final(self).is_fully_keyed() == old(self).is_fully_keyed(),
            old(self).nodes().len() == 0 ==> final(self).nodes().len() == 1 && is_placeholder(
                final(self).nodes()[0],
            ) && !final(self).is_fully_keyed(),
            plan.1@ == previous_nodes(ancestor),
            plan.0@ == (if final(self).is_fully_keyed() && previous_keyed(ancestor) {
                keyed_script(keys_of(final(self).nodes()), keys_of(plan.1@))
            } else {
                unkeyed_script(final(self).nodes().len() as int, plan.1@.len() as int)
            }),
            exact(plan.0@, final(self).nodes().len() as int, plan.1@.len() as int),
            ends_on_first(plan.0@),
    {
        if self.children.len() == 0 {
            // Without a placeholder the next sibling would take this
            // list's place and later renders would come out of order.
            self.add_child(VNode::VText(VText::new(String::new())));
        }
        let (rights, rights_fully_keyed) = match ancestor {
            // The old side of a list is the list's children.
            Some(VNode::VList(list)) => (list.children, list.fully_keyed),
            // Any other node is an old side of one.
            Some(node) => {
                let has_key = node.has_key();
                (vec![node], has_key)
            },
            // Nothing was rendered: nothing there lacks a key.
            None => (Vec::new(), true),
        };
        let script = if self.fully_keyed && rights_fully_keyed {
            Self::apply_keyed(&self.children, &rights)
        } else {
            Self::apply_unkeyed(&self.children, &rights)
        };
        (script, rights)
    }

    /// The list's own identity key, if it has one.
    pub fn key(&self) -> (key: Option<Key>)
        ensures
            key == self.own_key(),
    {
        self.key
    }

    /// The number of children.
    pub fn len(&self) -> (n: usize)
        ensures
            n == self.nodes().len(),
    {
        self.children.len()
    }

    /// The children, in rendering order.
    pub fn children(&self) -> (children: &Vec<VNode>)
        ensures
            children@ == self.nodes(),
    {
        &self.children
    }

    /// Whether the cached flag is set.
    pub fn fully_keyed(&self) -> (keyed: bool)
        ensures
            keyed == self.is_fully_keyed(),
    {
        self.fully_keyed
    }
}

impl Default for VList {
    fn default() -> (list: VList)
        ensures
            list.nodes() == Seq::<VNode>::empty(),
            list.is_fully_keyed(),
            list.own_key().is_none(),
            list.wf(),
    {
        VList::new()
    }
}

} // verus!
