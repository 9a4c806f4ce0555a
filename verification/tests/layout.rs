use std::collections::HashMap;

use vlist::dom::{ElementWriter, Handle, Parent};
use vlist::script::Step;
use vlist::vlist::VList;
use vlist::vnode::{VNode, VTag, VText};

/// What is rendered for one node: a handle for an element or a text, the
/// renderings of its children for a fragment.
enum Rendered {
    Leaf(Handle),
    List(Vec<Rendered>),
}

/// A parent element with the markup of each child.
struct Page {
    writer: ElementWriter,
    markup: HashMap<Handle, String>,
}

fn handles(rendered: &Rendered, out: &mut Vec<Handle>) {
    match rendered {
        Rendered::Leaf(handle) => out.push(*handle),
        Rendered::List(children) => {
            for child in children {
                handles(child, out);
            }
        }
    }
}

fn first_handle(rendered: &Rendered) -> Option<Handle> {
    let mut all = Vec::new();
    handles(rendered, &mut all);
    all.first().copied()
}

fn markup_of(node: &VNode) -> String {
    match node {
        VNode::VTag(tag) => format!("<{}></{}>", tag.tag, tag.tag),
        VNode::VText(text) => text.text.clone(),
        VNode::VList(_) => unreachable!(),
    }
}

fn same_kind(new: &VNode, old: &VNode) -> bool {
    match (new, old) {
        (VNode::VText(_), VNode::VText(_)) => true,
        (VNode::VTag(a), VNode::VTag(b)) => a.tag == b.tag && a.key == b.key,
        _ => false,
    }
}

impl Page {
    fn new() -> (Page, Handle) {
        let mut parent = Parent::new();
        let end = parent.create().unwrap();
        parent.insert_before(end, None).unwrap();
        let mut markup = HashMap::new();
        markup.insert(end, "END".to_string());
        (Page { writer: ElementWriter::new(parent, None), markup }, end)
    }

    fn inner_html(&self) -> String {
        self.writer.parent.children.iter().map(|h| self.markup[h].as_str()).collect()
    }

    fn with_writer(&mut self, f: impl FnOnce(ElementWriter) -> ElementWriter) {
        let writer = std::mem::replace(&mut self.writer, ElementWriter::new(Parent::new(), None));
        self.writer = f(writer);
    }

    fn detach(&mut self, rendered: &Rendered) {
        let mut all = Vec::new();
        handles(rendered, &mut all);
        for handle in all {
            self.writer.parent.remove_child(handle).unwrap();
            self.markup.remove(&handle);
        }
    }

    fn move_before(&mut self, rendered: &Rendered) {
        let mut all = Vec::new();
        handles(rendered, &mut all);
        for handle in all {
            self.writer.move_before(handle).unwrap();
        }
    }

    fn create_leaf(&mut self, node: &VNode) -> Rendered {
        self.with_writer(|w| w.add().unwrap());
        let handle = self.writer.next_sibling.unwrap();
        self.markup.insert(handle, markup_of(node));
        Rendered::Leaf(handle)
    }

    /// Renders `node` before the writer's next sibling, over `ancestor` if
    /// there is one, and leaves the writer before what was rendered.
    fn apply(&mut self, node: &mut VNode, ancestor: Option<(VNode, Rendered)>) -> Rendered {
        if let VNode::VList(list) = node {
            return self.apply_list(list, ancestor);
        }
        match ancestor {
            Some((old, Rendered::Leaf(handle))) if same_kind(node, &old) => {
                self.with_writer(|w| w.patch(handle));
                self.markup.insert(handle, markup_of(node));
                Rendered::Leaf(handle)
            }
            Some((_, was)) => {
                if let VNode::VTag(_) = node {
                    let after = self.writer.next_sibling;
                    self.writer.next_sibling = first_handle(&was);
                    let made = self.create_leaf(node);
                    self.detach(&was);
                    let _ = after;
                    made
                } else {
                    self.detach(&was);
                    self.create_leaf(node)
                }
            }
            None => self.create_leaf(node),
        }
    }

    fn apply_list(&mut self, list: &mut VList, ancestor: Option<(VNode, Rendered)>) -> Rendered {
        let (old, was) = match ancestor {
            Some((old, was)) => (Some(old), Some(was)),
            None => (None, None),
        };
        let old_is_list = matches!(old, Some(VNode::VList(_)));
        let (script, rights) = list.apply(old);
        let mut was: Vec<Option<Rendered>> = match was {
            Some(Rendered::List(children)) if old_is_list => {
                children.into_iter().map(Some).collect()
            }
            Some(single) => vec![Some(single)],
            None => vec![],
        };
        let mut rights: Vec<Option<VNode>> = rights.into_iter().map(Some).collect();
        assert_eq!(was.len(), rights.len());
        let count = list.len();
        let mut rendered: Vec<Option<Rendered>> = (0..count).map(|_| None).collect();
        let children = list.children_mut();
        for step in script {
            match step {
                Step::Create { node } => {
                    rendered[node] = Some(self.apply(&mut children[node], None));
                }
                Step::Patch { node, ancestor, moved } => {
                    let old = rights[ancestor].take().unwrap();
                    let old_rendered = was[ancestor].take().unwrap();
                    if moved {
                        self.move_before(&old_rendered);
                    }
                    rendered[node] =
                        Some(self.apply(&mut children[node], Some((old, old_rendered))));
                }
                Step::Detach { ancestor } => {
                    rights[ancestor].take().unwrap();
                    let old_rendered = was[ancestor].take().unwrap();
                    self.detach(&old_rendered);
                }
            }
        }
        assert!(rights.iter().all(|r| r.is_none()));
        list.recheck_fully_keyed();
        Rendered::List(rendered.into_iter().map(|r| r.unwrap()).collect())
    }
}

struct TestLayout {
    name: &'static str,
    node: fn() -> VNode,
    expected: &'static str,
}

fn empty_node() -> VNode {
    VNode::VText(VText::new(String::new()))
}

fn diff_layouts(layouts: Vec<TestLayout>) {
    let (mut page, end) = Page::new();

    // Each layout by itself.
    for layout in layouts.iter() {
        page.writer.next_sibling = Some(end);
        let mut node = (layout.node)();
        let rendered = page.apply(&mut node, None);
        assert_eq!(
            page.inner_html(),
            format!("{}END", layout.expected),
            "Independently apply failed for layout '{}'",
            layout.name
        );

        // Once more, with no changes.
        page.writer.next_sibling = Some(end);
        let mut again = (layout.node)();
        let rendered = page.apply(&mut again, Some((node, rendered)));
        assert_eq!(
            page.inner_html(),
            format!("{}END", layout.expected),
            "Independently reapply failed for layout '{}'",
            layout.name
        );

        // Detach.
        page.writer.next_sibling = Some(end);
        let mut empty = empty_node();
        let rendered = page.apply(&mut empty, Some((again, rendered)));
        assert_eq!(
            page.inner_html(),
            "END",
            "Independently detach failed for layout '{}'",
            layout.name
        );
        page.detach(&rendered);
    }

    // Each layout over the one before it.
    let mut ancestor: Option<(VNode, Rendered)> = None;
    for layout in layouts.iter() {
        page.writer.next_sibling = Some(end);
        let mut node = (layout.node)();
        let rendered = page.apply(&mut node, ancestor);
        assert_eq!(
            page.inner_html(),
            format!("{}END", layout.expected),
            "Sequential apply failed for layout '{}'",
            layout.name
        );
        ancestor = Some((node, rendered));
    }

    // And back again.
    for layout in layouts.iter().rev() {
        page.writer.next_sibling = Some(end);
        let mut node = (layout.node)();
        let rendered = page.apply(&mut node, ancestor);
        assert_eq!(
            page.inner_html(),
            format!("{}END", layout.expected),
            "Sequential detach failed for layout '{}'",
            layout.name
        );
        ancestor = Some((node, rendered));
    }

    // Detach the last layout.
    page.writer.next_sibling = Some(end);
    let mut empty = empty_node();
    page.apply(&mut empty, ancestor);
    assert_eq!(page.inner_html(), "END", "Failed to detach last layout");
}

fn text(s: &str) -> VNode {
    VNode::VText(VText::new(s.to_string()))
}

fn fragment(children: Vec<VNode>) -> VNode {
    VNode::VList(VList::with_children(children, None))
}

/// A key for a name: equal names give equal keys.
fn key(name: &str) -> u64 {
    name.bytes().fold(0xcbf2_9ce4_8422_2325u64, |h, b| (h ^ b as u64).wrapping_mul(0x100_0000_01b3))
}

/// An element without a key.
fn plain(name: &str) -> VNode {
    VNode::VTag(VTag::new(name.to_string(), None))
}

/// An element with a key.
fn tag(name: &str, k: &str) -> VNode {
    VNode::VTag(VTag::new(name.to_string(), Some(key(k))))
}

/// A fragment with a key.
fn keyed(k: &str, children: Vec<VNode>) -> VNode {
    VNode::VList(VList::with_children(children, Some(key(k))))
}

/// A paragraph with text inside, rendered as one leaf.
fn para(inside: &str) -> VNode {
    text(&format!("<p>{}</p>", inside))
}

/// What a component that shows its number in a paragraph renders.
fn comp(id: u32, k: Option<&str>) -> VNode {
    VNode::VList(VList::with_children(vec![para(&id.to_string())], k.map(key)))
}

#[test]
fn vlist_diff() {
    let layout1 = TestLayout {
        name: "1",
        node: || {
            fragment(vec![
                text("a"),
                text("b"),
                fragment(vec![text("c"), text("d")]),
                text("e"),
            ])
        },
        expected: "abcde",
    };

    let layout2 = TestLayout {
        name: "2",
        node: || {
            fragment(vec![text("a"), text("b"), fragment(vec![]), text("e"), text("f")])
        },
        expected: "abef",
    };

    let layout3 = TestLayout {
        name: "3",
        node: || fragment(vec![text("a"), fragment(vec![]), text("b"), text("e")]),
        expected: "abe",
    };

    let layout4 = TestLayout {
        name: "4",
        node: || {
            fragment(vec![
                text("a"),
                fragment(vec![text("c"), text("d")]),
                text("b"),
                text("e"),
            ])
        },
        expected: "acdbe",
    };

    diff_layouts(vec![layout1, layout2, layout3, layout4]);
}

#[test]
fn diff() {
    let mut layouts = vec![];

    layouts.push(TestLayout {
        name: "All VNode types as children",
        node: || {
            fragment(vec![
                text("a"),
                tag("span", "vtag"),
                text("c"),
                text("d"),
                comp(0, Some("vchild")),
                keyed("vlist", vec![text("foo"), text("bar")]),
                plain("i"),
            ])
        },
        expected: "a<span></span>cd<p>0</p>foobar<i></i>",
    });

    layouts.extend(vec![
        TestLayout {
            name: "Inserting into VList first child - before",
            node: || fragment(vec![keyed("VList", vec![tag("i", "i")]), tag("p", "p")]),
            expected: "<i></i><p></p>",
        },
        TestLayout {
            name: "Inserting into VList first child - after",
            node: || {
                fragment(vec![keyed("VList", vec![tag("i", "i"), tag("e", "e")]), tag("p", "p")])
            },
            expected: "<i></i><e></e><p></p>",
        },
    ]);

    layouts.extend(vec![
        TestLayout {
            name: "No matches - before",
            node: || fragment(vec![tag("i", "i"), tag("e", "e")]),
            expected: "<i></i><e></e>",
        },
        TestLayout {
            name: "No matches - after",
            node: || fragment(vec![tag("a", "a"), tag("p", "p")]),
            expected: "<a></a><p></p>",
        },
    ]);

    layouts.extend(vec![
        TestLayout {
            name: "Append - before",
            node: || fragment(vec![tag("i", "i"), tag("e", "e")]),
            expected: "<i></i><e></e>",
        },
        TestLayout {
            name: "Append - after",
            node: || fragment(vec![tag("i", "i"), tag("e", "e"), tag("p", "p")]),
            expected: "<i></i><e></e><p></p>",
        },
    ]);

    layouts.extend(vec![
        TestLayout {
            name: "Prepend - before",
            node: || fragment(vec![tag("i", "i"), tag("e", "e")]),
            expected: "<i></i><e></e>",
        },
        TestLayout {
            name: "Prepend - after",
            node: || fragment(vec![tag("p", "p"), tag("i", "i"), tag("e", "e")]),
            expected: "<p></p><i></i><e></e>",
        },
    ]);

    layouts.extend(vec![
        TestLayout {
            name: "Delete first - before",
            node: || fragment(vec![tag("i", "i"), tag("e", "e"), tag("p", "p")]),
            expected: "<i></i><e></e><p></p>",
        },
        TestLayout {
            name: "Delete first - after",
            node: || fragment(vec![tag("e", "e"), tag("p", "p")]),
            expected: "<e></e><p></p>",
        },
    ]);

    layouts.extend(vec![
        TestLayout {
            name: "Delete last - before",
            node: || fragment(vec![tag("i", "i"), tag("e", "e"), tag("p", "p")]),
            expected: "<i></i><e></e><p></p>",
        },
        TestLayout {
            name: "Delete last - after",
            node: || fragment(vec![tag("i", "i"), tag("e", "e")]),
            expected: "<i></i><e></e>",
        },
    ]);

    layouts.extend(vec![
        TestLayout {
            name: "Delete last and change node type - before",
            node: || fragment(vec![tag("i", "i"), tag("e", "e"), tag("p", "p")]),
            expected: "<i></i><e></e><p></p>",
        },
        TestLayout {
            name: "Delete last - after",
            node: || {
                fragment(vec![
                    keyed("i", vec![plain("i")]),
                    keyed("e", vec![plain("e")]),
                    keyed("a", vec![plain("a")]),
                ])
            },
            expected: "<i></i><e></e><a></a>",
        },
    ]);

    layouts.extend(vec![
        TestLayout {
            name: "Delete middle - before",
            node: || fragment(vec![tag("i", "i"), tag("e", "e"), tag("p", "p"), tag("a", "a")]),
            expected: "<i></i><e></e><p></p><a></a>",
        },
        TestLayout {
            name: "Delete middle - after",
            node: || fragment(vec![tag("i", "i"), tag("e", "e2"), tag("p", "p2"), tag("a", "a")]),
            expected: "<i></i><e></e><p></p><a></a>",
        },
    ]);

    layouts.extend(vec![
        TestLayout {
            name: "Delete middle and change node type - before",
            node: || fragment(vec![tag("i", "i"), tag("e", "e"), tag("p", "p"), tag("a", "a")]),
            expected: "<i></i><e></e><p></p><a></a>",
        },
        TestLayout {
            name: "Delete middle and change node type- after",
            node: || {
                fragment(vec![
                    keyed("i2", vec![plain("i")]),
                    tag("e", "e"),
                    keyed("p", vec![plain("p")]),
                    keyed("a2", vec![plain("a")]),
                ])
            },
            expected: "<i></i><e></e><p></p><a></a>",
        },
    ]);

    layouts.extend(vec![
        TestLayout {
            name: "Reverse - before",
            node: || fragment(vec![tag("i", "i"), tag("e", "e"), tag("p", "p"), tag("u", "u")]),
            expected: "<i></i><e></e><p></p><u></u>",
        },
        TestLayout {
            name: "Reverse - after",
            node: || fragment(vec![tag("u", "u"), tag("p", "p"), tag("e", "e"), tag("i", "i")]),
            expected: "<u></u><p></p><e></e><i></i>",
        },
    ]);

    layouts.extend(vec![
        TestLayout {
            name: "Reverse and change node type - before",
            node: || {
                fragment(vec![
                    tag("i", "i"),
                    keyed("i1", vec![]),
                    keyed("i2", vec![]),
                    keyed("i3", vec![]),
                    tag("e", "e"),
                    keyed("yo", vec![tag("p", "p")]),
                    tag("u", "u"),
                ])
            },
            expected: "<i></i><e></e><p></p><u></u>",
        },
        TestLayout {
            name: "Reverse and change node type - after",
            node: || {
                fragment(vec![
                    keyed("u", vec![plain("u")]),
                    keyed("p", vec![plain("p")]),
                    keyed("e", vec![plain("e")]),
                    keyed("i", vec![plain("i")]),
                ])
            },
            expected: "<u></u><p></p><e></e><i></i>",
        },
    ]);

    layouts.extend(vec![
        TestLayout {
            name: "Swap 1&2 - before",
            node: || {
                fragment(vec![
                    tag("i", "1"),
                    tag("e", "2"),
                    tag("p", "3"),
                    tag("a", "4"),
                    tag("u", "5"),
                ])
            },
            expected: "<i></i><e></e><p></p><a></a><u></u>",
        },
        TestLayout {
            name: "Swap 1&2 - after",
            node: || {
                fragment(vec![
                    tag("e", "2"),
                    tag("i", "1"),
                    tag("p", "3"),
                    tag("a", "4"),
                    tag("u", "5"),
                ])
            },
            expected: "<e></e><i></i><p></p><a></a><u></u>",
        },
    ]);

    layouts.extend(vec![
        TestLayout {
            name: "Swap 1&2 and change node type - before",
            node: || {
                fragment(vec![
                    tag("i", "1"),
                    tag("e", "2"),
                    tag("p", "3"),
                    tag("a", "4"),
                    tag("u", "5"),
                ])
            },
            expected: "<i></i><e></e><p></p><a></a><u></u>",
        },
        TestLayout {
            name: "Swap 1&2 and change node type - after",
            node: || {
                fragment(vec![
                    keyed("2", vec![plain("e")]),
                    keyed("1", vec![plain("i")]),
                    keyed("3", vec![plain("p")]),
                    keyed("4", vec![plain("a")]),
                    keyed("5", vec![plain("u")]),
                ])
            },
            expected: "<e></e><i></i><p></p><a></a><u></u>",
        },
    ]);

    layouts.extend(vec![
        TestLayout {
            name: "test - before",
            node: || {
                fragment(vec![
                    keyed("1", vec![tag("e", "e"), tag("p", "p"), tag("a", "a"), tag("u", "u")]),
                    keyed("2", vec![tag("e", "e"), tag("p", "p"), tag("a", "a"), tag("u", "u")]),
                ])
            },
            expected: "<e></e><p></p><a></a><u></u><e></e><p></p><a></a><u></u>",
        },
        TestLayout {
            name: "Swap 4&5 - after",
            node: || {
                fragment(vec![tag("e", "1"), keyed("2", vec![tag("p", "p"), tag("i", "i")])])
            },
            expected: "<e></e><p></p><i></i>",
        },
    ]);

    layouts.extend(vec![
        TestLayout {
            name: "Swap 4&5 - before",
            node: || {
                fragment(vec![
                    tag("i", "1"),
                    tag("e", "2"),
                    tag("p", "3"),
                    tag("a", "4"),
                    tag("u", "5"),
                ])
            },
            expected: "<i></i><e></e><p></p><a></a><u></u>",
        },
        TestLayout {
            name: "Swap 4&5 - after",
            node: || {
                fragment(vec![
                    tag("i", "1"),
                    tag("e", "2"),
                    tag("p", "3"),
                    tag("u", "5"),
                    tag("a", "4"),
                ])
            },
            expected: "<i></i><e></e><p></p><u></u><a></a>",
        },
    ]);

    layouts.extend(vec![
        TestLayout {
            name: "Swap 1&5 - before",
            node: || {
                fragment(vec![
                    tag("i", "1"),
                    tag("e", "2"),
                    tag("p", "3"),
                    tag("a", "4"),
                    tag("u", "5"),
                ])
            },
            expected: "<i></i><e></e><p></p><a></a><u></u>",
        },
        TestLayout {
            name: "Swap 1&5 - after",
            node: || {
                fragment(vec![
                    tag("u", "5"),
                    tag("e", "2"),
                    tag("p", "3"),
                    tag("a", "4"),
                    tag("i", "1"),
                ])
            },
            expected: "<u></u><e></e><p></p><a></a><i></i>",
        },
    ]);

    layouts.extend(vec![
        TestLayout {
            name: "Move 2 after 4 - before",
            node: || {
                fragment(vec![
                    tag("i", "1"),
                    tag("e", "2"),
                    tag("p", "3"),
                    tag("a", "4"),
                    tag("u", "5"),
                ])
            },
            expected: "<i></i><e></e><p></p><a></a><u></u>",
        },
        TestLayout {
            name: "Move 2 after 4 - after",
            node: || {
                fragment(vec![
                    tag("i", "1"),
                    tag("p", "3"),
                    tag("a", "4"),
                    tag("e", "2"),
                    tag("u", "5"),
                ])
            },
            expected: "<i></i><p></p><a></a><e></e><u></u>",
        },
    ]);

    layouts.extend(vec![
        TestLayout {
            name: "Swap lists - before",
            node: || {
                fragment(vec![
                    keyed("1", vec![plain("i"), plain("e")]),
                    keyed("2", vec![plain("a"), plain("u")]),
                ])
            },
            expected: "<i></i><e></e><a></a><u></u>",
        },
        TestLayout {
            name: "Swap lists - after",
            node: || {
                fragment(vec![
                    keyed("2", vec![plain("a"), plain("u")]),
                    keyed("1", vec![plain("i"), plain("e")]),
                ])
            },
            expected: "<a></a><u></u><i></i><e></e>",
        },
    ]);

    layouts.extend(vec![
        TestLayout {
            name: "Swap lists with in-between - before",
            node: || {
                fragment(vec![
                    keyed("1", vec![plain("i"), plain("e")]),
                    tag("p", "between"),
                    keyed("2", vec![plain("a"), plain("u")]),
                ])
            },
            expected: "<i></i><e></e><p></p><a></a><u></u>",
        },
        TestLayout {
            name: "Swap lists with in-between - after",
            node: || {
                fragment(vec![
                    keyed("2", vec![plain("a"), plain("u")]),
                    tag("p", "between"),
                    keyed("1", vec![plain("i"), plain("e")]),
                ])
            },
            expected: "<a></a><u></u><p></p><i></i><e></e>",
        },
    ]);

    layouts.extend(vec![
        TestLayout {
            name: "Insert VComp front - before",
            node: || fragment(vec![tag("u", "1"), tag("a", "2")]),
            expected: "<u></u><a></a>",
        },
        TestLayout {
            name: "Insert VComp front - after",
            node: || fragment(vec![comp(0, Some("comp")), tag("u", "1"), tag("a", "2")]),
            expected: "<p>0</p><u></u><a></a>",
        },
    ]);

    layouts.extend(vec![
        TestLayout {
            name: "Insert VComp middle - before",
            node: || fragment(vec![tag("u", "1"), tag("a", "2")]),
            expected: "<u></u><a></a>",
        },
        TestLayout {
            name: "Insert VComp middle - after",
            node: || fragment(vec![tag("u", "1"), comp(0, Some("comp")), tag("a", "2")]),
            expected: "<u></u><p>0</p><a></a>",
        },
    ]);

    layouts.extend(vec![
        TestLayout {
            name: "Insert VComp back - before",
            node: || fragment(vec![tag("u", "1"), tag("a", "2")]),
            expected: "<u></u><a></a>",
        },
        TestLayout {
            name: "Insert VComp back - after",
            node: || fragment(vec![tag("u", "1"), tag("a", "2"), comp(0, Some("comp"))]),
            expected: "<u></u><a></a><p>0</p>",
        },
    ]);

    layouts.extend(vec![
        TestLayout {
            name: "Reverse VComp children - before",
            node: || {
                fragment(vec![
                    comp(1, Some("comp-1")),
                    comp(2, Some("comp-2")),
                    comp(3, Some("comp-3")),
                ])
            },
            expected: "<p>1</p><p>2</p><p>3</p>",
        },
        TestLayout {
            name: "Reverse VComp children - after",
            node: || {
                fragment(vec![
                    comp(3, Some("comp-3")),
                    comp(2, Some("comp-2")),
                    comp(1, Some("comp-1")),
                ])
            },
            expected: "<p>3</p><p>2</p><p>1</p>",
        },
    ]);

    layouts.extend(vec![
        TestLayout {
            name: "Reverse VComp children with children - before",
            node: || {
                fragment(vec![
                    keyed("comp-1", vec![para("11"), para("12")]),
                    keyed("comp-2", vec![para("21"), para("22")]),
                    keyed("comp-3", vec![para("31"), para("32")]),
                ])
            },
            expected: "<p>11</p><p>12</p><p>21</p><p>22</p><p>31</p><p>32</p>",
        },
        TestLayout {
            name: "Reverse VComp children with children - after",
            node: || {
                fragment(vec![
                    keyed("comp-3", vec![para("31"), para("32")]),
                    keyed("comp-2", vec![para("21"), para("22")]),
                    keyed("comp-1", vec![para("11"), para("12")]),
                ])
            },
            expected: "<p>31</p><p>32</p><p>21</p><p>22</p><p>11</p><p>12</p>",
        },
    ]);

    layouts.extend(vec![
        TestLayout {
            name: "Complex component update - before",
            node: || {
                fragment(vec![fragment(vec![comp(1, Some("comp-1")), comp(2, Some("comp-2"))])])
            },
            expected: "<p>1</p><p>2</p>",
        },
        TestLayout {
            name: "Complex component update - after",
            node: || {
                fragment(vec![fragment(vec![
                    keyed("comp-1", vec![comp(1, None)]),
                    keyed("comp-2", vec![para("2")]),
                ])])
            },
            expected: "<p>1</p><p>2</p>",
        },
    ]);

    layouts.extend(vec![
        TestLayout {
            name: "Reorder VComp children with children - before",
            node: || {
                fragment(vec![
                    keyed("comp-1", vec![para("1")]),
                    keyed("comp-3", vec![para("3")]),
                    keyed("comp-5", vec![para("5")]),
                    keyed("comp-2", vec![para("2")]),
                    keyed("comp-4", vec![para("4")]),
                    keyed("comp-6", vec![para("6")]),
                ])
            },
            expected: "<p>1</p><p>3</p><p>5</p><p>2</p><p>4</p><p>6</p>",
        },
        TestLayout {
            name: "Reorder VComp children with children - after",
            node: || {
                fragment(vec![
                    comp(6, Some("comp-6")),
                    comp(5, Some("comp-5")),
                    comp(4, Some("comp-4")),
                    comp(3, Some("comp-3")),
                    comp(2, Some("comp-2")),
                    comp(1, Some("comp-1")),
                ])
            },
            expected: "<p>6</p><p>5</p><p>4</p><p>3</p><p>2</p><p>1</p>",
        },
    ]);

    layouts.extend(vec![
        TestLayout {
            name: "Replace and reorder components - before",
            node: || {
                fragment(vec![fragment(vec![
                    keyed("comp-1", vec![para("1")]),
                    keyed("comp-2", vec![para("2")]),
                    keyed("comp-3", vec![para("3")]),
                ])])
            },
            expected: "<p>1</p><p>2</p><p>3</p>",
        },
        TestLayout {
            name: "Replace and reorder components - after",
            node: || {
                fragment(vec![fragment(vec![
                    comp(3, Some("comp-3")),
                    comp(2, Some("comp-2")),
                    comp(1, Some("comp-1")),
                ])])
            },
            expected: "<p>3</p><p>2</p><p>1</p>",
        },
    ]);

    diff_layouts(layouts);
}

fn all_handles(rendered: &Rendered) -> Vec<Handle> {
    let mut all = Vec::new();
    handles(rendered, &mut all);
    all
}

#[test]
fn an_empty_list_gives_way_to_three_keyed_children() {
    let (mut page, end) = Page::new();
    page.writer.next_sibling = Some(end);
    let mut old = fragment(vec![]);
    let was = page.apply(&mut old, None);
    assert_eq!(page.inner_html(), "END");
    let placeholder = first_handle(&was).unwrap();
    assert_eq!(page.writer.parent.children, vec![placeholder, end]);

    page.writer.next_sibling = Some(end);
    let mut new = fragment(vec![tag("i", "i"), tag("e", "e"), tag("p", "p")]);
    let now = page.apply(&mut new, Some((old, was)));
    assert_eq!(page.inner_html(), "<i></i><e></e><p></p>END");
    let made = all_handles(&now);
    assert_eq!(made.len(), 3);
    assert!(made.iter().all(|h| *h != placeholder));
    assert!(!page.writer.parent.children.contains(&placeholder));
    assert_eq!(page.writer.parent.children[..3].to_vec(), made);
    assert_eq!(page.writer.next_sibling, Some(made[0]));
}

#[test]
fn changed_middle_keys_patch_the_ends_and_replace_the_middle() {
    let (mut page, end) = Page::new();
    page.writer.next_sibling = Some(end);
    let mut old = fragment(vec![tag("i", "i"), tag("e", "e"), tag("p", "p"), tag("a", "a")]);
    let was = page.apply(&mut old, None);
    assert_eq!(page.inner_html(), "<i></i><e></e><p></p><a></a>END");
    let before = all_handles(&was);

    page.writer.next_sibling = Some(end);
    let mut new =
        fragment(vec![tag("i", "i"), tag("e", "e-new"), tag("p", "p-new"), tag("a", "a")]);
    let now = page.apply(&mut new, Some((old, was)));
    assert_eq!(page.inner_html(), "<i></i><e></e><p></p><a></a>END");
    let after = all_handles(&now);
    assert_eq!(after[0], before[0]);
    assert_eq!(after[3], before[3]);
    assert!(!before.contains(&after[1]));
    assert!(!before.contains(&after[2]));
    assert!(!page.writer.parent.children.contains(&before[1]));
    assert!(!page.writer.parent.children.contains(&before[2]));
}

#[test]
fn a_list_that_shrinks_to_nothing_keeps_its_place() {
    let (mut page, end) = Page::new();
    page.writer.next_sibling = Some(end);
    let mut old = fragment(vec![text("a"), fragment(vec![text("b"), text("c")]), text("d")]);
    let was = page.apply(&mut old, None);
    assert_eq!(page.inner_html(), "abcdEND");

    page.writer.next_sibling = Some(end);
    let mut new = fragment(vec![text("a"), fragment(vec![]), text("d")]);
    let now = page.apply(&mut new, Some((old, was)));
    assert_eq!(page.inner_html(), "adEND");
    // The placeholder of the inner list stands between its neighbours.
    assert_eq!(all_handles(&now).len(), 3);
    assert_eq!(page.writer.parent.children.len(), 4);

    page.writer.next_sibling = Some(end);
    let mut again = fragment(vec![text("a"), fragment(vec![text("x")]), text("d")]);
    page.apply(&mut again, Some((new, now)));
    assert_eq!(page.inner_html(), "axdEND");
}
