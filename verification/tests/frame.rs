use dynamite::attributes::Attributes;
use dynamite::frame::{Dynamite, FrameAction, FrameEvent, PaintStep};
use dynamite::layout::{LayoutError, LayoutMapping};
use dynamite::document::{NameMap, VDom};
use dynamite::markup::{Markup, MarkupElement, ParseError};
use dynamite::styles::Style;
use dynamite::vdom::{ElementNode, TextNode, VNode};
use taffy::NodeId;

fn node(name: &str, attrs: &[(&str, &str)], children: Vec<Markup>) -> Markup {
    Markup::Element(MarkupElement {
        name: name.to_string(),
        attrs: attrs.iter().map(|(k, v)| (k.to_string(), v.to_string())).collect(),
        children,
    })
}

fn page() -> Markup {
    node(
        "html",
        &[],
        vec![node(
            "body",
            &[],
            vec![node("h1", &[], vec![Markup::Text("Title".to_string())]), node("p", &[], vec![Markup::Text("{{ body }}".to_string())])],
        )],
    )
}

fn render(tree: &VNode, text: &str) -> VNode {
    match tree {
        VNode::Text(t) => VNode::Text(TextNode { rendered: text.to_string(), ..t.clone() }),
        VNode::Element(e) => VNode::Element(ElementNode {
            children: e.children.iter().map(|c| render(c, text)).collect(),
            ..e.clone()
        }),
    }
}

fn text(id: u128, s: &str) -> VNode {
    VNode::Text(TextNode {
        internal_id: id,
        id: None,
        attrs: Attributes::new(),
        style: Style::default(),
        template: String::new(),
        rendered: s.to_string(),
    })
}

fn element(id: u128, children: Vec<VNode>) -> VNode {
    VNode::Element(ElementNode {
        internal_id: id,
        id: None,
        tag: "div".to_string(),
        attrs: Attributes::new(),
        style: Style::default(),
        children,
    })
}

#[test]
fn new_builds_document_and_layout() {
    let d = Dynamite::new(&page()).unwrap();
    assert!(d.first_run);
    assert_eq!(d.layout.taffy.total_node_count(), 5);
    assert_eq!(d.layout.id_map.len(), 5);
    assert!(d.layout.id_map.contains_key(&d.vdom.root.get_internal_id()));
}

#[test]
fn new_rejects_a_page_without_body() {
    assert_eq!(Dynamite::new(&node("html", &[], vec![])).err(), Some(ParseError::BodyNotFound));
}

#[test]
fn first_frame_runs_load_hooks_and_later_frames_update_hooks() {
    let mut d = Dynamite::new(&page()).unwrap();
    assert_eq!(d.run_frame(FrameEvent::Begin), Ok(FrameAction::RunLoadHooks));
    assert!(!d.first_run);
    assert_eq!(d.run_frame(FrameEvent::Begin), Ok(FrameAction::RunUpdateHooks));
    assert_eq!(d.run_frame(FrameEvent::Begin), Ok(FrameAction::RunUpdateHooks));
}

#[test]
fn unchanged_tree_skips_the_frame() {
    let mut d = Dynamite::new(&page()).unwrap();
    let same = d.vdom.root.clone();
    assert_eq!(d.run_frame(FrameEvent::Committed(same)), Ok(FrameAction::Skip));
    assert_eq!(d.layout.taffy.total_node_count(), 5);
    assert!(d.first_run);
}

#[test]
fn changed_tree_is_followed_by_the_layout() {
    let mut d = Dynamite::new(&page()).unwrap();
    let root_id = d.vdom.root.get_internal_id();
    let root_handle = *d.layout.id_map.get(&root_id).unwrap();
    let next = render(&d.vdom.root, "rendered");
    assert_eq!(d.run_frame(FrameEvent::Committed(next.clone())), Ok(FrameAction::Paint { root: root_handle }));
    assert_eq!(d.vdom.root, next);
    assert_eq!(d.layout.taffy.total_node_count(), 5);
    assert_eq!(d.layout.id_map.len(), 5);
    assert!(d.layout.is_dirty(root_handle));
    assert_eq!(d.run_frame(FrameEvent::Committed(next)), Ok(FrameAction::Skip));
}

#[test]
fn replaced_root_gets_a_layout_node() {
    let mut d = Dynamite::new(&page()).unwrap();
    let next = text(12345, "flat");
    match d.run_frame(FrameEvent::Committed(next.clone())) {
        Ok(FrameAction::Paint { root }) => {
            assert_eq!(d.layout.id_map.get(&12345), Some(&root));
            assert_eq!(d.layout.taffy.total_node_count(), 1);
            assert!(d.layout.taffy.parent(NodeId::from(root)).is_none());
        }
        other => panic!("unexpected answer {:?}", other),
    }
    assert_eq!(d.vdom.root, next);
}

#[test]
fn frame_fails_when_the_layout_has_come_apart() {
    let old = element(1, vec![text(2, "a")]);
    let mut d = Dynamite {
        vdom: VDom { root: old.clone(), templates: NameMap::new(), id_map: NameMap::new() },
        layout: LayoutMapping::new(),
        first_run: false,
    };
    let next = element(1, vec![text(2, "b")]);
    assert_eq!(d.run_frame(FrameEvent::Committed(next)), Err(LayoutError::Desynchronized));
    assert_eq!(d.vdom.root, old);
}

#[test]
fn paint_plan_goes_from_parents_to_children() {
    let tree = element(1, vec![text(2, "a"), element(3, vec![text(4, "b"), text(5, "c")]), text(6, "d")]);
    let mut layout = LayoutMapping::new();
    layout.build_tree(&tree, None);
    let h = |id: u128| *layout.id_map.get(&id).unwrap();
    let d = Dynamite {
        vdom: VDom { root: tree.clone(), templates: NameMap::new(), id_map: NameMap::new() },
        layout: {
            let mut l = LayoutMapping::new();
            l.build_tree(&tree, None);
            l
        },
        first_run: true,
    };
    let plan = d.paint_plan();
    let h2 = |id: u128| *d.layout.id_map.get(&id).unwrap();
    assert_eq!(
        plan,
        vec![
            PaintStep { identity: 1, handle: h2(1), parent: None, text: false },
            PaintStep { identity: 2, handle: h2(2), parent: Some(0), text: true },
            PaintStep { identity: 3, handle: h2(3), parent: Some(0), text: false },
            PaintStep { identity: 4, handle: h2(4), parent: Some(2), text: true },
            PaintStep { identity: 5, handle: h2(5), parent: Some(2), text: true },
            PaintStep { identity: 6, handle: h2(6), parent: Some(0), text: true },
        ]
    );
    assert_eq!(h(1), h2(1));
}

#[test]
fn paint_plan_leaves_out_what_is_not_registered() {
    let tree = element(1, vec![text(2, "a"), element(3, vec![text(4, "b")]), text(6, "d")]);
    let mut layout = LayoutMapping::new();
    layout.build_tree(&tree, None);
    layout.id_map.remove(&3);
    layout.id_map.remove(&6);
    let mut plan = Vec::new();
    layout.plan_paint(&tree, None, &mut plan);
    assert_eq!(plan.len(), 2);
    assert_eq!(plan[0].identity, 1);
    assert_eq!(plan[1].identity, 2);
    let mut none = Vec::new();
    layout.plan_paint(&text(99, "x"), Some(7), &mut none);
    assert!(none.is_empty());
}
