//! The nodes of a virtual tree, as far as reconciliation reads them.
use vstd::prelude::*;
use crate::keys::Key;
use crate::vlist::VList;

verus! {

/// A run of text. Text carries no key.
#[derive(Clone, Debug, PartialEq)]
pub struct VText {
    /// What the text node shows.
    pub text: String,
}

/// A tagged element.
#[derive(Clone, Debug, PartialEq)]
pub struct VTag {
    /// The element's tag name.
    pub tag: String,
    /// The element's identity among its siblings, if it has one.
    pub key: Option<Key>,
}

/// One node of a virtual tree.
#[derive(Debug, PartialEq)]
pub enum VNode {
    /// A tagged element.
    VTag(VTag),
    /// A run of text.
    VText(VText),
    /// A fragment: a nested list of nodes.
    VList(VList),
}

impl VText {
    /// A text node showing `text`.
    pub fn new(text: String) -> (node: VText)
        ensures
            node.text == text,
    {
        VText { text }
    }
}

impl VTag {
    /// An element named `tag` with the identity `key`.
    pub fn new(tag: String, key: Option<Key>) -> (node: VTag)
        ensures
            node.tag == tag,
            node.key == key,
    {
        VTag { tag, key }
    }
}

impl VNode {
    /// The node's identity key: that of an element or of a fragment, none for text.
    pub open spec fn spec_key(&self) -> Option<Key> {
        match self {
            VNode::VTag(tag) => tag.key,
            VNode::VText(_) => None,
            VNode::VList(list) => list.own_key(),
        }
    }

    /// Whether the node has an identity key.
    pub open spec fn spec_has_key(&self) -> bool {
        self.spec_key().is_some()
    }

    /// The node's identity key, if it has one.
    #[verifier::when_used_as_spec(spec_key)]
    pub fn key(&self) -> (key: Option<Key>)
        ensures
            key == self.spec_key(),
    {
        match self {
            VNode::VTag(tag) => tag.key,
            VNode::VText(_) => None,
            VNode::VList(list) => list.key(),
        }
    }

    /// Whether the node has an identity key.
    #[verifier::when_used_as_spec(spec_has_key)]
    pub fn has_key(&self) -> (keyed: bool)
        ensures
            keyed == self.spec_has_key(),
    {
        self.key().is_some()
    }
}

/// Whether every node of `nodes` has an identity key.
pub open spec fn all_keyed(nodes: Seq<VNode>) -> bool {
    forall|i: int| 0 <= i < nodes.len() ==> (#[trigger] nodes[i]).spec_has_key()
}

/// The keys of `nodes`, position by position; where a node has none, zero
/// stands in its place.
pub open spec fn keys_of(nodes: Seq<VNode>) -> Seq<Key> {
    Seq::new(
        nodes.len(),
        |i: int|
            match nodes[i].spec_key() {
                Some(key) => key,
                None => 0,
            },
    )
}

} // verus!
