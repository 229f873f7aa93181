use dynamite::attributes::Attributes;
use dynamite::diff::{apply_patch, diff_attrs, diff_vnode};
use dynamite::patch::DiffOp;
use dynamite::styles::{Dimension, Scalar, Style};
use dynamite::vdom::{ElementNode, TextNode, VNode};

fn map_of(pairs: &[(&str, &str)]) -> Attributes {
    let mut map = Attributes::new();
    for (k, v) in pairs {
        map.insert(k.to_string(), v.to_string());
    }
    map
}

fn text(id: u128, rendered: &str) -> VNode {
    VNode::Text(TextNode {
        internal_id: id,
        id: None,
        attrs: Attributes::new(),
        style: Style::default(),
        template: "{{ value }}".to_string(),
        rendered: rendered.to_string(),
    })
}

fn element(id: u128, tag: &str, attrs: &[(&str, &str)], children: Vec<VNode>) -> VNode {
    VNode::Element(ElementNode {
        internal_id: id,
        id: None,
        tag: tag.to_string(),
        attrs: map_of(attrs),
        style: Style::default(),
        children,
    })
}

fn deep(depth: u128) -> VNode {
    if depth == 0 {
        text(1000, "leaf")
    } else {
        element(depth, "div", &[("depth", "d")], vec![deep(depth - 1), text(2000 + depth, "side")])
    }
}

fn change(key: &str, old: Option<&str>, new: Option<&str>) -> (String, Option<String>, Option<String>) {
    (key.to_string(), old.map(|s| s.to_string()), new.map(|s| s.to_string()))
}

#[test]
fn diff_of_a_tree_with_itself_is_nothing() {
    let t = deep(0);
    assert_eq!(diff_vnode(&t, &t), None);
    let t = element(1, "div", &[("a", "1"), ("b", "2")], vec![text(2, "x"), element(3, "p", &[], vec![])]);
    assert_eq!(diff_vnode(&t, &t.clone()), None);
    let t = deep(40);
    assert_eq!(diff_vnode(&t, &t.clone()), None);
}

#[test]
fn attribute_order_does_not_matter() {
    let a = element(1, "div", &[("a", "1"), ("b", "2")], vec![]);
    let b = element(1, "div", &[("b", "2"), ("a", "1")], vec![]);
    assert_eq!(diff_vnode(&a, &b), None);
    let mut ta = TextNode {
        internal_id: 1,
        id: None,
        attrs: map_of(&[("a", "1"), ("b", "2")]),
        style: Style::default(),
        template: String::new(),
        rendered: String::new(),
    };
    let tb = TextNode { attrs: map_of(&[("b", "2"), ("a", "1")]), ..ta.clone() };
    assert!(ta.same_as(&tb));
    assert_eq!(diff_vnode(&VNode::Text(ta.clone()), &VNode::Text(tb.clone())), None);
    ta.attrs.insert("c".to_string(), "3".to_string());
    assert!(!ta.same_as(&tb));
}

#[test]
fn changed_text_child_is_replaced_inside_a_child_patch() {
    let old = element(1, "div", &[], vec![text(2, "hello")]);
    let new = element(1, "div", &[], vec![text(2, "world")]);
    let patch = diff_vnode(&old, &new);
    assert_eq!(
        patch,
        Some(DiffOp::Composite(vec![DiffOp::PatchChild(
            0,
            Box::new(DiffOp::Replace(text(2, "hello"), text(2, "world")))
        )]))
    );
    assert_eq!(apply_patch(&old, &patch.unwrap()), new);
}

#[test]
fn appended_child_is_one_added_child() {
    let old = element(1, "ul", &[], vec![text(2, "a"), text(3, "b")]);
    let new = element(1, "ul", &[], vec![text(2, "a"), text(3, "b"), text(4, "c")]);
    let patch = diff_vnode(&old, &new);
    assert_eq!(patch, Some(DiffOp::Composite(vec![DiffOp::AddChild(2, text(4, "c"))])));
    assert_eq!(apply_patch(&old, &patch.unwrap()), new);
}

#[test]
fn attribute_changes_name_old_and_new_values() {
    let old = element(1, "div", &[("color", "red")], vec![]);
    let new = element(1, "div", &[("color", "blue"), ("size", "10")], vec![]);
    match diff_vnode(&old, &new) {
        Some(DiffOp::Composite(ops)) => {
            assert_eq!(ops.len(), 1);
            match &ops[0] {
                DiffOp::ChangeAttributes { tag, changes } => {
                    assert_eq!(tag, "div");
                    assert_eq!(changes.len(), 2);
                    assert!(changes.contains(&change("color", Some("red"), Some("blue"))));
                    assert!(changes.contains(&change("size", None, Some("10"))));
                }
                other => panic!("unexpected patch {:?}", other),
            }
        }
        other => panic!("unexpected patch {:?}", other),
    }
}

#[test]
fn attribute_changes_cover_dropped_changed_and_added_keys() {
    let a = map_of(&[("keep", "1"), ("drop", "2"), ("change", "3")]);
    let b = map_of(&[("new", "5"), ("change", "4"), ("keep", "1")]);
    assert_eq!(
        diff_attrs(&a, &b),
        vec![change("drop", Some("2"), None), change("change", Some("3"), Some("4")), change("new", None, Some("5"))]
    );
    assert_eq!(diff_attrs(&a, &a), vec![]);
}

#[test]
fn different_tags_are_replaced_whole() {
    let old = element(1, "div", &[], vec![text(2, "x")]);
    let new = element(1, "span", &[], vec![text(2, "x")]);
    assert_eq!(diff_vnode(&old, &new), Some(DiffOp::Replace(old.clone(), new.clone())));
}

#[test]
fn element_against_text_is_replaced() {
    let old = element(1, "div", &[], vec![]);
    let new = text(1, "x");
    assert_eq!(diff_vnode(&old, &new), Some(DiffOp::Replace(old.clone(), new.clone())));
    assert_eq!(diff_vnode(&new, &old), Some(DiffOp::Replace(new.clone(), old.clone())));
}

#[test]
fn changed_text_is_replaced() {
    let mut styled = TextNode {
        internal_id: 2,
        id: Some("t".to_string()),
        attrs: Attributes::new(),
        style: Style::default(),
        template: "t".to_string(),
        rendered: "r".to_string(),
    };
    let old = VNode::Text(styled.clone());
    styled.style.width = Some(Dimension::Points(Scalar { thousandths: 1000 }));
    let new = VNode::Text(styled);
    assert_eq!(diff_vnode(&old, &new), Some(DiffOp::Replace(old.clone(), new.clone())));
}

#[test]
fn removed_last_child_is_one_removed_child() {
    let old = element(1, "ul", &[], vec![text(2, "a"), text(3, "b")]);
    let new = element(1, "ul", &[], vec![text(2, "a")]);
    let patch = diff_vnode(&old, &new);
    assert_eq!(patch, Some(DiffOp::Composite(vec![DiffOp::RemoveChild(1)])));
    assert_eq!(apply_patch(&old, &patch.unwrap()), new);
}

#[test]
fn removals_carry_old_indices() {
    let old = element(1, "ul", &[], vec![text(2, "a"), text(3, "b"), text(4, "c")]);
    let new = element(1, "ul", &[], vec![text(2, "a")]);
    assert_eq!(
        diff_vnode(&old, &new),
        Some(DiffOp::Composite(vec![DiffOp::RemoveChild(1), DiffOp::RemoveChild(2)]))
    );
}

#[test]
fn round_trip_rebuilds_the_new_tree() {
    let old = element(
        1,
        "div",
        &[("class", "a"), ("gone", "x")],
        vec![
            text(2, "same"),
            element(3, "p", &[("k", "v")], vec![text(4, "old text"), text(5, "stays")]),
            text(6, "becomes element"),
        ],
    );
    let new = element(
        1,
        "div",
        &[("class", "b"), ("fresh", "y")],
        vec![
            text(2, "same"),
            element(3, "p", &[("k", "w")], vec![text(4, "new text"), text(5, "stays"), text(7, "added")]),
            element(8, "em", &[], vec![]),
            element(9, "section", &[], vec![text(10, "deep")]),
        ],
    );
    let patch = diff_vnode(&old, &new).unwrap();
    assert_eq!(apply_patch(&old, &patch), new);
}

#[test]
fn round_trip_keeps_the_identity_of_an_element_that_keeps_its_tag() {
    let old = element(1, "div", &[("a", "1")], vec![element(2, "p", &[], vec![text(3, "x")])]);
    let new = element(100, "div", &[("a", "2")], vec![element(200, "p", &[], vec![text(3, "y")])]);
    let patched = apply_patch(&old, &diff_vnode(&old, &new).unwrap());
    assert_eq!(patched, element(1, "div", &[("a", "2")], vec![element(2, "p", &[], vec![text(3, "y")])]));
}

#[test]
fn text_change_deep_down_is_wrapped_once_per_level() {
    let old = element(1, "a", &[], vec![text(9, "s"), element(2, "b", &[], vec![element(3, "c", &[], vec![text(4, "old")])])]);
    let new = element(1, "a", &[], vec![text(9, "s"), element(2, "b", &[], vec![element(3, "c", &[], vec![text(4, "new")])])]);
    let inner = DiffOp::Replace(text(4, "old"), text(4, "new"));
    let level3 = DiffOp::Composite(vec![DiffOp::PatchChild(0, Box::new(inner))]);
    let level2 = DiffOp::Composite(vec![DiffOp::PatchChild(0, Box::new(level3))]);
    let level1 = DiffOp::Composite(vec![DiffOp::PatchChild(1, Box::new(level2))]);
    assert_eq!(diff_vnode(&old, &new), Some(level1));
}

#[test]
fn patches_are_applied_one_by_one() {
    let node = element(1, "div", &[("a", "1"), ("b", "2")], vec![text(2, "x"), text(3, "y")]);
    let replaced = apply_patch(&node, &DiffOp::Replace(text(0, "ignored"), text(7, "z")));
    assert_eq!(replaced, text(7, "z"));
    let changed = apply_patch(
        &node,
        &DiffOp::ChangeAttributes {
            tag: "span".to_string(),
            changes: vec![change("a", Some("1"), None), change("c", None, Some("3")), change("b", None, Some("9"))],
        },
    );
    assert_eq!(changed, element(1, "span", &[("b", "9"), ("c", "3")], vec![text(2, "x"), text(3, "y")]));
    let added = apply_patch(&node, &DiffOp::AddChild(1, text(4, "m")));
    assert_eq!(added, element(1, "div", &[("a", "1"), ("b", "2")], vec![text(2, "x"), text(4, "m"), text(3, "y")]));
    let removed = apply_patch(&node, &DiffOp::RemoveChild(0));
    assert_eq!(removed, element(1, "div", &[("a", "1"), ("b", "2")], vec![text(3, "y")]));
    let patched = apply_patch(&node, &DiffOp::PatchChild(1, Box::new(DiffOp::Replace(text(3, "y"), text(3, "yy")))));
    assert_eq!(patched, element(1, "div", &[("a", "1"), ("b", "2")], vec![text(2, "x"), text(3, "yy")]));
    let missing = apply_patch(&node, &DiffOp::PatchChild(5, Box::new(DiffOp::RemoveChild(0))));
    assert_eq!(missing, node);
    let both = apply_patch(&node, &DiffOp::Composite(vec![DiffOp::RemoveChild(0), DiffOp::AddChild(1, text(5, "n"))]));
    assert_eq!(both, element(1, "div", &[("a", "1"), ("b", "2")], vec![text(3, "y"), text(5, "n")]));
    assert_eq!(apply_patch(&node, &DiffOp::Composite(vec![])), node);
}

#[test]
fn a_text_takes_no_edit_but_a_replacement() {
    let t = text(1, "x");
    assert_eq!(apply_patch(&t, &DiffOp::AddChild(0, text(2, "y"))), t);
    assert_eq!(apply_patch(&t, &DiffOp::RemoveChild(0)), t);
    assert_eq!(apply_patch(&t, &DiffOp::PatchChild(0, Box::new(DiffOp::RemoveChild(0)))), t);
    assert_eq!(apply_patch(&t, &DiffOp::ChangeAttributes { tag: "p".to_string(), changes: vec![] }), t);
}

#[test]
fn recalling_well_formedness_changes_nothing() {
    let t = deep(5);
    let copy = t.clone();
    t.recall_well_formed();
    assert_eq!(t, copy);
    map_of(&[("a", "1")]).distinct();
}
