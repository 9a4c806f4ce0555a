use vlist::dom::{ElementWriter, Handle, Parent, RenderError};
use vlist::keys::{matching_len, matching_len_rev};
use vlist::reconcile::map_keys;
use vlist::script::Step;
use vlist::vlist::VList;
use vlist::vnode::{VNode, VTag, VText};

fn keyed(keys: &[u64]) -> Vec<VNode> {
    keys.iter().map(|k| VNode::VTag(VTag::new("li".to_string(), Some(*k)))).collect()
}

fn texts(n: usize) -> Vec<VNode> {
    (0..n).map(|i| VNode::VText(VText::new(i.to_string()))).collect()
}

fn keep(node: usize, ancestor: usize) -> Step {
    Step::Patch { node, ancestor, moved: false }
}

fn shift(node: usize, ancestor: usize) -> Step {
    Step::Patch { node, ancestor, moved: true }
}

fn moves(script: &[Step]) -> usize {
    script.iter().filter(|s| matches!(s, Step::Patch { moved: true, .. })).count()
}

/// A parent whose children are `before`, then `olds` old nodes, then
/// `after`, with a writer that stands at the end of the old nodes.
fn page(before: usize, olds: usize, after: usize) -> (ElementWriter, Vec<Handle>) {
    let mut parent = Parent::new();
    let mut all = Vec::new();
    for _ in 0..before + olds + after {
        let handle = parent.create().unwrap();
        parent.insert_before(handle, None).unwrap();
        all.push(handle);
    }
    let rights = all[before..before + olds].to_vec();
    let anchor = all.get(before + olds).copied();
    (ElementWriter::new(parent, anchor), rights)
}

fn run(news: &[u64], olds: &[u64]) -> (Vec<Step>, Vec<Handle>, Vec<Handle>, Vec<Handle>) {
    let script = VList::apply_keyed(&keyed(news), &keyed(olds));
    let (writer, rights) = page(1, olds.len(), 1);
    let (writer, placed) = writer.run(&script, &rights, news.len()).unwrap();
    let placed: Vec<Handle> = placed.into_iter().map(|h| h.unwrap()).collect();
    assert_eq!(writer.next_sibling, placed.first().copied());
    (script, rights, placed, writer.parent.children)
}

#[test]
fn common_prefix_is_counted_up_to_the_first_mismatch() {
    assert_eq!(matching_len(&vec![1, 2, 3, 4], &vec![1, 2, 9, 4]), 2);
    assert_eq!(matching_len(&vec![1, 2], &vec![1, 2, 3]), 2);
    assert_eq!(matching_len(&vec![7], &vec![8]), 0);
    assert_eq!(matching_len(&vec![], &vec![1]), 0);
}

#[test]
fn common_suffix_stays_clear_of_the_prefix() {
    assert_eq!(matching_len_rev(&vec![1, 2, 3, 4], &vec![1, 9, 3, 4], 1), 2);
    assert_eq!(matching_len_rev(&vec![1, 1], &vec![1, 1, 1], 2), 0);
    assert_eq!(matching_len_rev(&vec![1, 1], &vec![1, 1, 1], 1), 1);
    assert_eq!(matching_len_rev(&vec![5, 6], &vec![7, 8], 0), 0);
}

#[test]
fn keys_are_read_in_order() {
    assert_eq!(map_keys(&keyed(&[4, 2, 9])), vec![4, 2, 9]);
    assert_eq!(map_keys(&vec![]), Vec::<u64>::new());
}

#[test]
fn unkeyed_equal_length_patches_every_position_in_place() {
    let script = VList::apply_unkeyed(&texts(3), &texts(3));
    assert_eq!(script, vec![keep(2, 2), keep(1, 1), keep(0, 0)]);

    let (writer, rights) = page(1, 3, 2);
    let before = writer.parent.children.clone();
    let (writer, placed) = writer.run(&script, &rights, 3).unwrap();
    assert_eq!(writer.parent.children, before);
    assert_eq!(placed, rights.iter().map(|h| Some(*h)).collect::<Vec<_>>());
    assert_eq!(writer.next_sibling, Some(rights[0]));
}

#[test]
fn unkeyed_surplus_of_new_nodes_is_created_behind_the_old_ones() {
    let script = VList::apply_unkeyed(&texts(5), &texts(3));
    assert_eq!(
        script,
        vec![
            Step::Create { node: 4 },
            Step::Create { node: 3 },
            keep(2, 2),
            keep(1, 1),
            keep(0, 0)
        ]
    );

    let (writer, rights) = page(1, 3, 1);
    let first = writer.parent.children[0];
    let last = writer.parent.children[4];
    let next = writer.parent.next;
    let (writer, placed) = writer.run(&script, &rights, 5).unwrap();
    let placed: Vec<Handle> = placed.into_iter().map(|h| h.unwrap()).collect();
    assert_eq!(placed, vec![rights[0], rights[1], rights[2], next + 1, next]);
    let mut expected = vec![first];
    expected.extend(&placed);
    expected.push(last);
    assert_eq!(writer.parent.children, expected);
    assert_eq!(writer.parent.children.len(), 1 + 3 + 2 + 1);
}

#[test]
fn unkeyed_surplus_of_old_nodes_is_detached_from_the_end() {
    let script = VList::apply_unkeyed(&texts(1), &texts(3));
    assert_eq!(
        script,
        vec![Step::Detach { ancestor: 2 }, Step::Detach { ancestor: 1 }, keep(0, 0)]
    );

    let (writer, rights) = page(0, 3, 1);
    let last = writer.parent.children[3];
    let (writer, placed) = writer.run(&script, &rights, 1).unwrap();
    assert_eq!(writer.parent.children, vec![rights[0], last]);
    assert_eq!(placed, vec![Some(rights[0])]);
}

#[test]
fn unkeyed_against_nothing_creates_everything() {
    let script = VList::apply_unkeyed(&texts(2), &vec![]);
    assert_eq!(script, vec![Step::Create { node: 1 }, Step::Create { node: 0 }]);
    assert_eq!(VList::apply_unkeyed(&vec![], &vec![]), vec![]);
}

#[test]
fn keyed_same_keys_move_nothing() {
    let (script, rights, placed, _) = run(&[1, 2, 3, 4], &[1, 2, 3, 4]);
    assert_eq!(script, vec![keep(3, 3), keep(2, 2), keep(1, 1), keep(0, 0)]);
    assert_eq!(moves(&script), 0);
    assert_eq!(placed, rights);
}

#[test]
fn keyed_matches_nodes_by_key_not_by_position() {
    // 10 and 30 stay, 20 goes, 40 and 50 are new, and 30 comes before 10.
    let (script, rights, placed, children) = run(&[40, 30, 10, 50], &[10, 20, 30]);
    assert_eq!(
        script,
        vec![
            Step::Create { node: 3 },
            shift(2, 0),
            shift(1, 2),
            Step::Create { node: 0 },
            Step::Detach { ancestor: 1 },
        ]
    );
    assert_eq!(placed[2], rights[0]);
    assert_eq!(placed[1], rights[2]);
    assert!(!rights.contains(&placed[0]));
    assert!(!rights.contains(&placed[3]));
    assert!(!children.contains(&rights[1]));
    assert_eq!(children[1..5].to_vec(), placed);
}

#[test]
fn keyed_removal_of_one_node_moves_nothing() {
    let olds = [1, 2, 3, 4, 5];
    for gone in 0..olds.len() {
        let mut news = olds.to_vec();
        news.remove(gone);
        let (script, rights, placed, children) = run(&news, &olds);
        assert_eq!(moves(&script), 0);
        assert_eq!(
            script.iter().filter(|s| matches!(s, Step::Detach { .. })).count(),
            1
        );
        assert!(script.contains(&Step::Detach { ancestor: gone }));
        assert!(!script.iter().any(|s| matches!(s, Step::Create { .. })));
        let mut kept = rights.clone();
        kept.remove(gone);
        assert_eq!(placed, kept);
        assert_eq!(children[1..5].to_vec(), kept);
    }
}

#[test]
fn keyed_insertion_of_one_node_moves_nothing() {
    let olds = [1, 2, 3, 4];
    for at in 0..=olds.len() {
        let mut news = olds.to_vec();
        news.insert(at, 9);
        let (script, rights, placed, children) = run(&news, &olds);
        assert_eq!(moves(&script), 0);
        assert_eq!(
            script.iter().filter(|s| matches!(s, Step::Create { .. })).count(),
            1
        );
        assert!(script.contains(&Step::Create { node: at }));
        assert!(!script.iter().any(|s| matches!(s, Step::Detach { .. })));
        let mut others = placed.clone();
        let made = others.remove(at);
        assert_eq!(others, rights);
        assert!(!rights.contains(&made));
        assert_eq!(children[1..6].to_vec(), placed);
    }
}

#[test]
fn reversal_keeps_every_node_and_ends_in_the_new_order() {
    let news = [5, 4, 3, 2, 1];
    let olds = [1, 2, 3, 4, 5];
    let script = VList::apply_keyed(&keyed(&news), &keyed(&olds));
    assert_eq!(
        script,
        vec![shift(4, 0), shift(3, 1), shift(2, 2), shift(1, 3), shift(0, 4)]
    );
    assert!(!script.iter().any(|s| matches!(s, Step::Create { .. } | Step::Detach { .. })));

    // Step by step: the last relocation finds its node in place already.
    let (mut writer, rights) = page(0, 5, 0);
    let mut changed = 0;
    for step in &script {
        let before = writer.parent.children.clone();
        writer = writer.run(&vec![*step], &rights, 5).unwrap().0;
        if writer.parent.children != before {
            changed += 1;
        }
    }
    assert_eq!(changed, 4);
    let reversed: Vec<Handle> = rights.iter().rev().copied().collect();
    assert_eq!(writer.parent.children, reversed);
}

#[test]
fn changed_keys_in_the_middle_are_created_and_the_old_ones_detached() {
    // The two ends keep their keys, the two in the middle get new ones.
    let (script, rights, placed, children) = run(&[1, 20, 30, 4], &[1, 2, 3, 4]);
    assert_eq!(
        script,
        vec![
            keep(3, 3),
            Step::Create { node: 2 },
            Step::Create { node: 1 },
            Step::Detach { ancestor: 2 },
            Step::Detach { ancestor: 1 },
            keep(0, 0),
        ]
    );
    assert_eq!(placed[0], rights[0]);
    assert_eq!(placed[3], rights[3]);
    assert!(!rights.contains(&placed[1]));
    assert!(!rights.contains(&placed[2]));
    assert!(!children.contains(&rights[1]));
    assert!(!children.contains(&rights[2]));
    assert_eq!(children[1..5].to_vec(), placed);
}

#[test]
fn a_node_keeps_its_place_only_beside_the_same_right_neighbour() {
    // 2 follows 3 before and after: only 3 has to move.
    let (script, _, placed, children) = run(&[1, 4, 2, 3, 5], &[1, 2, 3, 4, 5]);
    assert_eq!(script, vec![keep(4, 4), shift(3, 2), keep(2, 1), shift(1, 3), keep(0, 0)]);
    assert_eq!(children[1..6].to_vec(), placed);

    // The rule looks at keys, not at where the nodes stand by now.
    let script = VList::apply_keyed(&keyed(&[3, 4, 5, 1, 2]), &keyed(&[1, 2, 3, 4, 5]));
    assert_eq!(script, vec![shift(4, 1), keep(3, 0), shift(2, 4), keep(1, 3), keep(0, 2)]);
}

#[test]
fn of_two_old_nodes_with_one_key_one_is_patched_and_one_detached() {
    // Old positions 1 and 3 both bear the key 7.
    let (script, rights, placed, children) = run(&[9, 7, 8], &[1, 7, 2, 7, 3]);
    assert_eq!(
        script,
        vec![
            Step::Create { node: 2 },
            shift(1, 1),
            Step::Create { node: 0 },
            Step::Detach { ancestor: 4 },
            Step::Detach { ancestor: 3 },
            Step::Detach { ancestor: 2 },
            Step::Detach { ancestor: 0 },
        ]
    );
    assert_eq!(placed[1], rights[1]);
    assert!(!children.contains(&rights[3]));
    assert_eq!(children[1..4].to_vec(), placed);
    assert_eq!(children.len(), 5);

    // Every old position is named once, every new position once.
    for j in 0..5 {
        let named = script
            .iter()
            .filter(|s| match s {
                Step::Patch { ancestor, .. } | Step::Detach { ancestor } => *ancestor == j,
                Step::Create { .. } => false,
            })
            .count();
        assert_eq!(named, 1);
    }
}

#[test]
fn of_two_new_nodes_with_one_key_the_rightmost_takes_the_old_node() {
    let (script, rights, placed, children) = run(&[7, 1, 7, 5], &[2, 7, 6]);
    assert_eq!(
        script,
        vec![
            Step::Create { node: 3 },
            shift(2, 1),
            Step::Create { node: 1 },
            Step::Create { node: 0 },
            Step::Detach { ancestor: 2 },
            Step::Detach { ancestor: 0 },
        ]
    );
    assert_eq!(placed[2], rights[1]);
    assert_ne!(placed[0], rights[1]);
    assert_eq!(children[1..5].to_vec(), placed);

    // In the tail the two lists are met from the right.
    let script = VList::apply_keyed(&keyed(&[7, 1, 7]), &keyed(&[2, 7]));
    assert_eq!(
        script,
        vec![keep(2, 1), Step::Create { node: 1 }, Step::Create { node: 0 }, Step::Detach {
            ancestor: 0
        }]
    );
}

#[test]
fn keyed_leaves_plain_growth_and_shrinking_to_the_positional_script() {
    assert_eq!(
        VList::apply_keyed(&keyed(&[1, 2, 3]), &keyed(&[1, 2])),
        VList::apply_unkeyed(&texts(3), &texts(2))
    );
    assert_eq!(
        VList::apply_keyed(&keyed(&[1]), &keyed(&[1, 2, 3])),
        VList::apply_unkeyed(&texts(1), &texts(3))
    );
    assert_eq!(
        VList::apply_keyed(&keyed(&[1, 2]), &vec![]),
        vec![Step::Create { node: 1 }, Step::Create { node: 0 }]
    );
}

#[test]
fn a_script_that_names_a_missing_position_is_refused() {
    let (writer, rights) = page(0, 1, 0);
    assert_eq!(
        writer.run(&vec![Step::Create { node: 1 }], &rights, 1).err(),
        Some(RenderError::OutOfRange)
    );
    let (writer, rights) = page(0, 1, 0);
    assert_eq!(
        writer.run(&vec![keep(0, 1)], &rights, 1).err(),
        Some(RenderError::OutOfRange)
    );
    let (writer, rights) = page(0, 1, 0);
    assert_eq!(
        writer.run(&vec![Step::Detach { ancestor: 3 }], &rights, 1).err(),
        Some(RenderError::OutOfRange)
    );
}

#[test]
fn a_script_that_uses_a_node_twice_fails_on_the_second_use() {
    let (writer, rights) = page(0, 2, 0);
    let script = vec![Step::Detach { ancestor: 1 }, Step::Detach { ancestor: 1 }];
    assert_eq!(writer.run(&script, &rights, 0).err(), Some(RenderError::NotFound));

    // A detached node is no anchor to write before.
    let (writer, rights) = page(0, 2, 0);
    let script = vec![keep(1, 1), Step::Detach { ancestor: 1 }, Step::Create { node: 0 }];
    assert_eq!(writer.run(&script, &rights, 2).err(), Some(RenderError::NotFound));
}
