use dynamite::attributes::Attributes;
use dynamite::diff::diff_vnode;
use dynamite::layout::{position_in, LayoutError, LayoutMapping};
use dynamite::patch::DiffOp;
use dynamite::engine::NodeContext;
use dynamite::styles::{Dimension, Scalar, Style};
use dynamite::vdom::{ElementNode, TextNode, VNode};
use taffy::NodeId;

fn text(id: u128, rendered: &str) -> VNode {
    VNode::Text(TextNode {
        internal_id: id,
        id: None,
        attrs: Attributes::new(),
        style: Style::default(),
        template: String::new(),
        rendered: rendered.to_string(),
    })
}

fn element(id: u128, tag: &str, children: Vec<VNode>) -> VNode {
    VNode::Element(ElementNode {
        internal_id: id,
        id: None,
        tag: tag.to_string(),
        attrs: Attributes::new(),
        style: Style::default(),
        children,
    })
}

fn children_of(layout: &LayoutMapping, h: u64) -> Vec<u64> {
    layout.taffy.children(NodeId::from(h)).unwrap().into_iter().map(u64::from).collect()
}

fn parent_of(layout: &LayoutMapping, h: u64) -> Option<u64> {
    layout.taffy.parent(NodeId::from(h)).map(u64::from)
}

fn handle(layout: &LayoutMapping, id: u128) -> u64 {
    *layout.id_map.get(&id).unwrap()
}

fn sample() -> VNode {
    element(1, "div", vec![text(2, "a"), element(3, "p", vec![text(4, "b"), text(5, "c")]), text(6, "d")])
}

#[test]
fn new_layout_is_empty() {
    let layout = LayoutMapping::new();
    assert_eq!(layout.taffy.total_node_count(), 0);
    assert!(layout.id_map.is_empty());
    assert!(layout.restyle.is_empty());
}

#[test]
fn build_makes_one_layout_node_per_node() {
    let mut layout = LayoutMapping::new();
    let root = layout.build_tree(&sample(), None);
    assert_eq!(layout.taffy.total_node_count(), 6);
    assert_eq!(layout.id_map.len(), 6);
    assert_eq!(handle(&layout, 1), root);
    assert_eq!(parent_of(&layout, root), None);
    assert_eq!(children_of(&layout, root), vec![handle(&layout, 2), handle(&layout, 3), handle(&layout, 6)]);
    assert_eq!(children_of(&layout, handle(&layout, 3)), vec![handle(&layout, 4), handle(&layout, 5)]);
    assert_eq!(children_of(&layout, handle(&layout, 2)), vec![]);
    assert_eq!(parent_of(&layout, handle(&layout, 4)), Some(handle(&layout, 3)));
    assert_eq!(parent_of(&layout, handle(&layout, 3)), Some(root));
}

#[test]
fn build_queues_the_style_of_every_node() {
    let mut layout = LayoutMapping::new();
    let mut styled = Style::default();
    styled.width = Some(Dimension::Points(Scalar { thousandths: 5000 }));
    let tree = VNode::Element(ElementNode {
        internal_id: 1,
        id: None,
        tag: "div".to_string(),
        attrs: Attributes::new(),
        style: styled,
        children: vec![text(2, "a")],
    });
    let root = layout.build_tree(&tree, None);
    assert_eq!(layout.restyle.len(), 2);
    assert_eq!(layout.restyle[0], (handle(&layout, 2), Style::default()));
    assert_eq!(layout.restyle[1], (root, styled));
}

#[test]
fn build_keeps_the_text_for_measurement() {
    let mut layout = LayoutMapping::new();
    layout.build_tree(&sample(), None);
    match layout.taffy.get_node_context(NodeId::from(handle(&layout, 4))) {
        Some(NodeContext::Text(t)) => assert_eq!(t.rendered, "b"),
        other => panic!("unexpected context {:?}", other),
    }
    assert!(layout.taffy.get_node_context(NodeId::from(handle(&layout, 3))).is_none());
    assert!(matches!(sample().get_node_context(), NodeContext::Element));
    assert!(matches!(text(1, "x").get_node_context(), NodeContext::Text(_)));
}

#[test]
fn build_under_a_parent_attaches_as_last_child() {
    let mut layout = LayoutMapping::new();
    let root = layout.build_tree(&sample(), None);
    let extra = layout.build_tree(&element(7, "em", vec![text(8, "e")]), Some(root));
    assert_eq!(layout.taffy.total_node_count(), 8);
    assert_eq!(parent_of(&layout, extra), Some(root));
    assert_eq!(children_of(&layout, root).last(), Some(&extra));
    assert_eq!(children_of(&layout, root).len(), 4);
    assert_eq!(handle(&layout, 7), extra);
}

#[test]
fn replaced_text_gets_a_new_layout_node_at_the_same_place() {
    let old = element(1, "div", vec![text(2, "hello")]);
    let new = element(1, "div", vec![text(2, "world")]);
    let mut layout = LayoutMapping::new();
    let root = layout.build_tree(&old, None);
    let before = handle(&layout, 2);
    let patch = diff_vnode(&old, &new).unwrap();
    assert_eq!(layout.apply_diff(&old, &patch), Ok(()));
    let after = handle(&layout, 2);
    assert_ne!(before, after);
    assert_eq!(handle(&layout, 1), root);
    assert_eq!(children_of(&layout, root), vec![after]);
    assert_eq!(parent_of(&layout, after), Some(root));
    assert_eq!(layout.taffy.total_node_count(), 2);
    assert_eq!(layout.id_map.len(), 2);
    match layout.taffy.get_node_context(NodeId::from(after)) {
        Some(NodeContext::Text(t)) => assert_eq!(t.rendered, "world"),
        other => panic!("unexpected context {:?}", other),
    }
}

#[test]
fn replaced_subtree_in_the_middle_keeps_its_position_and_its_siblings() {
    let old = sample();
    let mut layout = LayoutMapping::new();
    let root = layout.build_tree(&old, None);
    let (h2, h6) = (handle(&layout, 2), handle(&layout, 6));
    let patch = DiffOp::PatchChild(
        1,
        Box::new(DiffOp::Replace(
            element(3, "p", vec![text(4, "b"), text(5, "c")]),
            element(30, "section", vec![text(40, "x")]),
        )),
    );
    assert_eq!(layout.apply_diff(&old, &patch), Ok(()));
    assert_eq!(children_of(&layout, root), vec![h2, handle(&layout, 30), h6]);
    assert_eq!(children_of(&layout, handle(&layout, 30)), vec![handle(&layout, 40)]);
    assert_eq!(handle(&layout, 2), h2);
    assert_eq!(handle(&layout, 6), h6);
    for gone in [3u128, 4, 5] {
        assert!(!layout.id_map.contains_key(&gone));
    }
    assert_eq!(layout.taffy.total_node_count(), 5);
    assert_eq!(layout.id_map.len(), 5);
}

#[test]
fn replaced_root_is_built_anew() {
    let old = sample();
    let new = text(9, "all gone");
    let mut layout = LayoutMapping::new();
    layout.build_tree(&old, None);
    assert_eq!(layout.apply_diff(&old, &DiffOp::Replace(old.clone(), new.clone())), Ok(()));
    assert_eq!(layout.taffy.total_node_count(), 1);
    assert_eq!(layout.id_map.len(), 1);
    assert_eq!(parent_of(&layout, handle(&layout, 9)), None);
}

#[test]
fn added_child_is_built_and_inserted() {
    let old = element(1, "ul", vec![text(2, "a"), text(3, "b")]);
    let mut layout = LayoutMapping::new();
    let root = layout.build_tree(&old, None);
    let (h2, h3) = (handle(&layout, 2), handle(&layout, 3));
    assert_eq!(layout.apply_diff(&old, &DiffOp::AddChild(1, element(4, "li", vec![text(5, "c")]))), Ok(()));
    assert_eq!(children_of(&layout, root), vec![h2, handle(&layout, 4), h3]);
    assert_eq!(children_of(&layout, handle(&layout, 4)), vec![handle(&layout, 5)]);
    assert_eq!(parent_of(&layout, handle(&layout, 4)), Some(root));
    assert_eq!(layout.taffy.total_node_count(), 5);
    assert_eq!(layout.apply_diff(&old, &DiffOp::AddChild(3, text(6, "end"))), Ok(()));
    assert_eq!(children_of(&layout, root), vec![h2, handle(&layout, 4), h3, handle(&layout, 6)]);
}

#[test]
fn added_child_beyond_the_end_is_an_error() {
    let old = element(1, "ul", vec![text(2, "a")]);
    let mut layout = LayoutMapping::new();
    let root = layout.build_tree(&old, None);
    assert_eq!(layout.apply_diff(&old, &DiffOp::AddChild(2, text(3, "b"))), Err(LayoutError::ChildIndexOutOfBounds));
    assert_eq!(layout.taffy.total_node_count(), 2);
    assert!(!layout.id_map.contains_key(&3));
    assert_eq!(children_of(&layout, root).len(), 1);
}

#[test]
fn removed_child_is_discarded_with_all_below_it() {
    let old = sample();
    let mut layout = LayoutMapping::new();
    let root = layout.build_tree(&old, None);
    let (h2, h6) = (handle(&layout, 2), handle(&layout, 6));
    assert_eq!(layout.apply_diff(&old, &DiffOp::RemoveChild(1)), Ok(()));
    assert_eq!(children_of(&layout, root), vec![h2, h6]);
    for gone in [3u128, 4, 5] {
        assert!(!layout.id_map.contains_key(&gone));
    }
    assert_eq!(layout.taffy.total_node_count(), 3);
    assert_eq!(handle(&layout, 1), root);
    assert_eq!(handle(&layout, 2), h2);
    assert_eq!(handle(&layout, 6), h6);
}

#[test]
fn several_removals_address_the_old_children() {
    let old = element(1, "ul", vec![text(2, "a"), text(3, "b"), text(4, "c")]);
    let new = element(1, "ul", vec![text(2, "a")]);
    let mut layout = LayoutMapping::new();
    let root = layout.build_tree(&old, None);
    let patch = diff_vnode(&old, &new).unwrap();
    assert_eq!(layout.apply_diff(&old, &patch), Ok(()));
    assert_eq!(children_of(&layout, root), vec![handle(&layout, 2)]);
    assert_eq!(layout.taffy.total_node_count(), 2);
    assert_eq!(layout.id_map.len(), 2);
}

#[test]
fn removed_child_that_is_not_there_is_an_error() {
    let old = element(1, "ul", vec![text(2, "a")]);
    let mut layout = LayoutMapping::new();
    layout.build_tree(&old, None);
    assert_eq!(layout.apply_diff(&old, &DiffOp::RemoveChild(1)), Err(LayoutError::ChildIndexOutOfBounds));
    assert_eq!(layout.apply_diff(&text(2, "a"), &DiffOp::RemoveChild(0)), Err(LayoutError::ChildIndexOutOfBounds));
    assert_eq!(layout.taffy.total_node_count(), 2);
}

#[test]
fn unknown_identity_is_a_consistency_error() {
    let old = element(1, "ul", vec![text(2, "a")]);
    let stranger = element(50, "ul", vec![text(51, "a")]);
    let mut layout = LayoutMapping::new();
    layout.build_tree(&old, None);
    assert_eq!(
        layout.apply_diff(&stranger, &DiffOp::Replace(stranger.clone(), text(52, "x"))),
        Err(LayoutError::Desynchronized)
    );
    assert_eq!(layout.apply_diff(&stranger, &DiffOp::AddChild(0, text(52, "x"))), Err(LayoutError::Desynchronized));
    assert_eq!(layout.apply_diff(&stranger, &DiffOp::RemoveChild(0)), Err(LayoutError::Desynchronized));
    assert_eq!(
        layout.apply_diff(&stranger, &DiffOp::ChangeAttributes { tag: "ul".to_string(), changes: vec![] }),
        Err(LayoutError::Desynchronized)
    );
    assert_eq!(layout.taffy.total_node_count(), 2);
    assert_eq!(layout.id_map.len(), 2);
}

#[test]
fn a_failure_ends_a_composite() {
    let old = element(1, "ul", vec![text(2, "a")]);
    let mut layout = LayoutMapping::new();
    layout.build_tree(&old, None);
    let patch = DiffOp::Composite(vec![
        DiffOp::AddChild(1, text(3, "b")),
        DiffOp::RemoveChild(7),
        DiffOp::AddChild(0, text(4, "never")),
    ]);
    assert_eq!(layout.apply_diff(&old, &patch), Err(LayoutError::ChildIndexOutOfBounds));
    assert!(layout.id_map.contains_key(&3));
    assert!(!layout.id_map.contains_key(&4));
}

#[test]
fn changed_style_attribute_queues_the_new_style() {
    let old = element(1, "div", vec![]);
    let mut layout = LayoutMapping::new();
    let root = layout.build_tree(&old, None);
    layout.restyle.clear();
    let patch = DiffOp::ChangeAttributes {
        tag: "div".to_string(),
        changes: vec![
            ("class".to_string(), None, Some("big".to_string())),
            ("style".to_string(), None, Some("width: 10px".to_string())),
        ],
    };
    assert_eq!(layout.apply_diff(&old, &patch), Ok(()));
    assert_eq!(layout.restyle.len(), 1);
    assert_eq!(layout.restyle[0].0, root);
    assert_eq!(layout.restyle[0].1.width, Some(Dimension::Points(Scalar { thousandths: 10000 })));
}

#[test]
fn style_that_resolves_to_the_same_record_is_not_queued() {
    let old = element(1, "div", vec![]);
    let mut layout = LayoutMapping::new();
    layout.build_tree(&old, None);
    layout.restyle.clear();
    let patch = DiffOp::ChangeAttributes {
        tag: "div".to_string(),
        changes: vec![
            ("style".to_string(), None, Some("unknown: 1".to_string())),
            ("style".to_string(), Some("x".to_string()), None),
        ],
    };
    assert_eq!(layout.apply_diff(&old, &patch), Ok(()));
    assert!(layout.restyle.is_empty());
    assert_eq!(layout.taffy.total_node_count(), 1);
}

#[test]
fn patch_of_a_missing_child_does_nothing() {
    let old = element(1, "div", vec![text(2, "a")]);
    let mut layout = LayoutMapping::new();
    layout.build_tree(&old, None);
    assert_eq!(layout.apply_diff(&old, &DiffOp::PatchChild(4, Box::new(DiffOp::RemoveChild(0)))), Ok(()));
    assert_eq!(layout.apply_diff(&text(2, "a"), &DiffOp::PatchChild(0, Box::new(DiffOp::RemoveChild(0)))), Ok(()));
    assert_eq!(layout.apply_diff(&old, &DiffOp::Composite(vec![])), Ok(()));
    assert_eq!(layout.taffy.total_node_count(), 2);
}

#[test]
fn unchanged_subtrees_keep_their_layout_nodes() {
    let old = sample();
    let new = element(1, "div", vec![text(2, "a"), element(3, "p", vec![text(4, "B"), text(5, "c")]), text(6, "d"), text(7, "e")]);
    let mut layout = LayoutMapping::new();
    layout.build_tree(&old, None);
    let kept: Vec<(u128, u64)> = [1u128, 2, 3, 5, 6].iter().map(|id| (*id, handle(&layout, *id))).collect();
    let old4 = handle(&layout, 4);
    assert_eq!(layout.apply_diff(&old, &diff_vnode(&old, &new).unwrap()), Ok(()));
    for (id, h) in kept {
        assert_eq!(handle(&layout, id), h);
    }
    assert_ne!(handle(&layout, 4), old4);
    assert_eq!(
        children_of(&layout, handle(&layout, 1)),
        vec![handle(&layout, 2), handle(&layout, 3), handle(&layout, 6), handle(&layout, 7)]
    );
    assert_eq!(children_of(&layout, handle(&layout, 3)), vec![handle(&layout, 4), handle(&layout, 5)]);
    assert_eq!(layout.taffy.total_node_count(), 7);
}

#[test]
fn registered_tells_whether_a_whole_subtree_is_in_the_index() {
    let mut layout = LayoutMapping::new();
    layout.build_tree(&sample(), None);
    assert!(layout.registered(&sample()));
    assert!(layout.registered(&text(4, "other content, same identity")));
    assert!(!layout.registered(&element(1, "div", vec![text(99, "x")])));
    assert!(!layout.registered(&text(99, "x")));
}

#[test]
fn position_in_finds_the_first_occurrence() {
    assert_eq!(position_in(&vec![5, 6, 7, 6], 6), Some(1));
    assert_eq!(position_in(&vec![5, 6, 7], 8), None);
    assert_eq!(position_in(&vec![], 8), None);
}

#[test]
fn a_new_node_is_dirty() {
    let mut layout = LayoutMapping::new();
    let root = layout.build_tree(&sample(), None);
    assert!(layout.is_dirty(root));
}

#[test]
fn reconcile_follows_a_change_and_tells_whether_there_was_one() {
    let old = sample();
    let new = element(
        1,
        "div",
        vec![text(2, "a"), element(3, "p", vec![text(4, "B"), text(5, "c"), text(8, "new")]), element(9, "em", vec![])],
    );
    let mut layout = LayoutMapping::new();
    let root = layout.build_tree(&old, None);
    let kept: Vec<(u128, u64)> = [1u128, 2, 3, 5].iter().map(|id| (*id, handle(&layout, *id))).collect();
    assert_eq!(layout.reconcile(&old, &old.clone()), Ok(false));
    assert_eq!(layout.taffy.total_node_count(), 6);
    assert_eq!(layout.reconcile(&old, &new), Ok(true));
    for (id, h) in kept {
        assert_eq!(handle(&layout, id), h);
    }
    assert_eq!(children_of(&layout, root), vec![handle(&layout, 2), handle(&layout, 3), handle(&layout, 9)]);
    assert_eq!(
        children_of(&layout, handle(&layout, 3)),
        vec![handle(&layout, 4), handle(&layout, 5), handle(&layout, 8)]
    );
    assert!(!layout.id_map.contains_key(&6));
    assert_eq!(layout.id_map.len(), 7);
    assert_eq!(layout.taffy.total_node_count(), 7);
    assert_eq!(layout.reconcile(&new, &new.clone()), Ok(false));
}

#[test]
fn reconcile_fails_on_a_layout_that_has_come_apart() {
    let old = sample();
    let new = element(1, "div", vec![text(2, "changed")]);
    let mut layout = LayoutMapping::new();
    assert_eq!(layout.reconcile(&old, &new), Err(LayoutError::Desynchronized));
    assert_eq!(layout.taffy.total_node_count(), 0);
}
