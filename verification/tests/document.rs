use dynamite::attributes::Attributes;
use dynamite::document::{DocumentError, NameMap, VDom};
use dynamite::markup::{
    attribute_value, build_element, load_lua_scripts, parse_element, parse_html_to_vdom,
    parse_templates, read_attributes, Markup, MarkupElement, ParseError,
};
use dynamite::styles::{Dimension, Scalar, Style};
use dynamite::vdom::{ElementNode, TextNode, VNode};

fn el(name: &str, attrs: &[(&str, &str)], children: Vec<Markup>) -> MarkupElement {
    MarkupElement {
        name: name.to_string(),
        attrs: attrs.iter().map(|(k, v)| (k.to_string(), v.to_string())).collect(),
        children,
    }
}

fn node(name: &str, attrs: &[(&str, &str)], children: Vec<Markup>) -> Markup {
    Markup::Element(el(name, attrs, children))
}

fn txt(s: &str) -> Markup {
    Markup::Text(s.to_string())
}

fn page(body: Vec<Markup>, head: Vec<Markup>) -> Markup {
    node("html", &[], vec![node("head", &[], head), node("body", &[("id", "root"), ("onload", "init")], body)])
}

fn ids(n: &VNode, out: &mut Vec<u128>) {
    out.push(n.get_internal_id());
    if let VNode::Element(e) = n {
        for c in &e.children {
            ids(c, out);
        }
    }
}

fn all_different(v: &[u128]) -> bool {
    (0..v.len()).all(|i| (i + 1..v.len()).all(|j| v[i] != v[j]))
}

fn text(id: u128, s: &str) -> VNode {
    VNode::Text(TextNode {
        internal_id: id,
        id: None,
        attrs: Attributes::new(),
        style: Style::default(),
        template: s.to_string(),
        rendered: String::new(),
    })
}

fn element(id: u128, name: Option<&str>, children: Vec<VNode>) -> VNode {
    VNode::Element(ElementNode {
        internal_id: id,
        id: name.map(|s| s.to_string()),
        tag: "div".to_string(),
        attrs: Attributes::new(),
        style: Style::default(),
        children,
    })
}

fn document() -> VDom {
    let mut id_map = NameMap::new();
    id_map.insert("list".to_string(), 3u128);
    id_map.insert("label".to_string(), 2u128);
    id_map.insert("lost".to_string(), 77u128);
    let mut templates = NameMap::new();
    templates.insert("row".to_string(), element(10, Some("row"), vec![text(11, "{{ title }}"), element(12, None, vec![])]));
    VDom { root: element(1, None, vec![text(2, "t"), element(3, Some("list"), vec![text(4, "x")])]), templates, id_map }
}

#[test]
fn element_becomes_a_tree() {
    let m = el(
        "div",
        &[("id", "box"), ("class", "c"), ("style", "width: 10px; color: #fff")],
        vec![
            txt("  hello {{ name }} \n"),
            txt("   "),
            Markup::Other,
            node("template", &[("id", "t")], vec![node("p", &[], vec![])]),
            node("script", &[], vec![txt("code()")]),
            node("span", &[], vec![txt("inner")]),
        ],
    );
    let tree = build_element(&m);
    match &tree {
        VNode::Element(e) => {
            assert_eq!(e.internal_id, 0);
            assert_eq!(e.id, Some("box".to_string()));
            assert_eq!(e.tag, "div");
            assert_eq!(e.attrs.len(), 4);
            assert_eq!(e.attrs.get("id"), Some(&"box".to_string()));
            assert_eq!(e.attrs.get("class"), Some(&"c".to_string()));
            assert_eq!(e.attrs.get("width"), Some(&"10px".to_string()));
            assert_eq!(e.attrs.get("color"), Some(&"#fff".to_string()));
            assert_eq!(e.attrs.get("style"), None);
            assert_eq!(e.style.width, Some(Dimension::Points(Scalar { thousandths: 10000 })));
            assert_eq!(e.children.len(), 2);
            match &e.children[0] {
                VNode::Text(t) => {
                    assert_eq!(t.template, "hello {{ name }}");
                    assert_eq!(t.rendered, "");
                    assert_eq!(t.id, None);
                    assert_eq!(t.attrs, e.attrs);
                    assert_eq!(t.style, e.style);
                }
                other => panic!("unexpected child {:?}", other),
            }
            match &e.children[1] {
                VNode::Element(span) => {
                    assert_eq!(span.tag, "span");
                    assert_eq!(span.id, None);
                    assert!(span.attrs.is_empty());
                    assert_eq!(span.children.len(), 1);
                }
                other => panic!("unexpected child {:?}", other),
            }
        }
        other => panic!("unexpected tree {:?}", other),
    }
}

#[test]
fn attributes_are_read_in_order_and_the_last_wins() {
    let attrs: Vec<(String, String)> = [("a", "1"), ("style", "a: 2; b: 3"), ("b", "4")]
        .iter()
        .map(|(k, v)| (k.to_string(), v.to_string()))
        .collect();
    let map = read_attributes(&attrs);
    assert_eq!(map.len(), 2);
    assert_eq!(map.get("a"), Some(&"2".to_string()));
    assert_eq!(map.get("b"), Some(&"4".to_string()));
    assert_eq!(attribute_value(&attrs, "style"), Some(&"a: 2; b: 3".to_string()));
    assert_eq!(attribute_value(&attrs, "c"), None);
}

#[test]
fn parsed_elements_get_new_identities() {
    let m = el("div", &[], vec![txt("a"), node("p", &[], vec![txt("b")]), txt("c")]);
    let first = parse_element(&m);
    let second = parse_templates(&m);
    let mut seen = Vec::new();
    ids(&first, &mut seen);
    ids(&second, &mut seen);
    assert_eq!(seen.len(), 10);
    assert!(all_different(&seen));
    assert!(seen.iter().all(|id| *id != 0));
}

#[test]
fn page_becomes_a_document() {
    let doc = page(
        vec![
            node("div", &[("id", "list")], vec![txt("items")]),
            node("template", &[("id", "row")], vec![txt("\n"), node("li", &[("id", "inner")], vec![txt("{{ title }}")]), Markup::Other]),
            node("script", &[], vec![txt("function init() end")]),
        ],
        vec![node("script", &[], vec![txt("first()")]), node("script", &[], vec![])],
    );
    let vdom = parse_html_to_vdom(&doc).unwrap();
    match &vdom.root {
        VNode::Element(body) => {
            assert_eq!(body.tag, "body");
            assert_eq!(body.id, Some("root".to_string()));
            assert_eq!(body.children.len(), 1);
            assert_eq!(vdom.id_map.get("root"), Some(&body.internal_id));
            assert_eq!(vdom.id_map.get("list"), Some(&body.children[0].get_internal_id()));
        }
        other => panic!("unexpected root {:?}", other),
    }
    assert_eq!(vdom.id_map.entries.len(), 2);
    assert_eq!(vdom.id_map.get("inner"), None);
    assert_eq!(vdom.templates.entries.len(), 1);
    match vdom.templates.get("row") {
        Some(VNode::Element(li)) => {
            assert_eq!(li.tag, "li");
            assert_eq!(li.children.len(), 1);
        }
        other => panic!("unexpected template {:?}", other),
    }
    assert!(vdom.find_element_by_id("list").is_some());
    assert_eq!(load_lua_scripts(&doc), vec!["first()".to_string(), "function init() end".to_string()]);
}

#[test]
fn document_is_built_from_a_page() {
    let doc = page(vec![node("p", &[("id", "only")], vec![txt("text")])], vec![]);
    let vdom = VDom::new(&doc).unwrap();
    assert!(vdom.find_element_by_id("only").is_some());
    assert_eq!(VDom::new(&txt("no page")).err(), Some(ParseError::BodyNotFound));
}

#[test]
fn page_without_body_is_rejected() {
    let doc = node("html", &[], vec![node("head", &[], vec![])]);
    assert_eq!(parse_html_to_vdom(&doc).err(), Some(ParseError::BodyNotFound));
    assert_eq!(parse_html_to_vdom(&txt("just text")).err(), Some(ParseError::BodyNotFound));
    assert_eq!(ParseError::BodyNotFound.message(), "<body> not found");
}

#[test]
fn template_without_id_is_rejected() {
    let doc = page(vec![node("template", &[], vec![node("p", &[], vec![])])], vec![]);
    assert_eq!(parse_html_to_vdom(&doc).err(), Some(ParseError::TemplateWithoutId));
    assert_eq!(ParseError::TemplateWithoutId.message(), "template without id");
}

#[test]
fn template_without_element_is_rejected() {
    let doc = page(vec![node("template", &[("id", "t")], vec![txt("only text")])], vec![]);
    assert_eq!(parse_html_to_vdom(&doc).err(), Some(ParseError::TemplateWithoutChild));
    assert_eq!(ParseError::TemplateWithoutChild.message(), "template tag must contain one child element");
}

#[test]
fn template_with_two_roots_is_rejected() {
    let doc = page(vec![node("template", &[("id", "t")], vec![node("p", &[], vec![]), node("p", &[], vec![])])], vec![]);
    assert_eq!(parse_html_to_vdom(&doc).err(), Some(ParseError::TemplateWithManyRoots));
    assert_eq!(ParseError::TemplateWithManyRoots.message(), "template tag must contain only one root element");
}

#[test]
fn first_broken_template_decides_the_error() {
    let doc = node(
        "html",
        &[],
        vec![
            node("template", &[("id", "ok")], vec![node("p", &[], vec![])]),
            node("template", &[("id", "t")], vec![]),
            node("template", &[], vec![]),
        ],
    );
    assert_eq!(parse_html_to_vdom(&doc).err(), Some(ParseError::TemplateWithoutChild));
}

#[test]
fn nodes_are_found_by_identity_and_by_name() {
    let doc = document();
    assert_eq!(doc.find_element_by_internal_id(4).map(|n| n.get_internal_id()), Some(4));
    assert_eq!(doc.find_element_by_internal_id(1).map(|n| n.get_internal_id()), Some(1));
    assert!(doc.find_element_by_internal_id(5).is_none());
    assert_eq!(doc.find_element_by_id("list").map(|n| n.get_internal_id()), Some(3));
    assert_eq!(doc.find_element_by_id("label").map(|n| n.get_internal_id()), Some(2));
    assert!(doc.find_element_by_id("lost").is_none());
    assert!(doc.find_element_by_id("none").is_none());
}

#[test]
fn first_node_with_an_identity_is_found() {
    let tree = element(1, None, vec![element(2, None, vec![text(5, "first")]), text(5, "second")]);
    match tree.find_by_internal_id(5) {
        Some(VNode::Text(t)) => assert_eq!(t.template, "first"),
        other => panic!("unexpected node {:?}", other),
    }
}

#[test]
fn template_instances_share_no_identity() {
    let doc = document();
    let a = doc.create_element_from_template("row").unwrap();
    let b = doc.create_element_from_template("row").unwrap();
    let mut seen = vec![10u128, 11, 12];
    ids(&a, &mut seen);
    ids(&b, &mut seen);
    assert_eq!(seen.len(), 9);
    assert!(all_different(&seen));
    match (&a, doc.templates.get("row").unwrap()) {
        (VNode::Element(x), VNode::Element(t)) => {
            assert_eq!(x.tag, t.tag);
            assert_eq!(x.id, t.id);
            assert_eq!(x.children.len(), 2);
            match &x.children[0] {
                VNode::Text(text) => assert_eq!(text.template, "{{ title }}"),
                other => panic!("unexpected child {:?}", other),
            }
        }
        other => panic!("unexpected instance {:?}", other),
    }
    assert!(doc.create_element_from_template("column").is_none());
}

#[test]
fn relabel_hands_out_identities_from_top_to_bottom() {
    let mut tree = element(1, None, vec![element(2, None, vec![text(3, "a")]), text(4, "b")]);
    let end = tree.relabel(&vec![0, 10, 20, 30, 40, 50], 1);
    assert_eq!(end, 5);
    assert_eq!(tree, element(10, None, vec![element(20, None, vec![text(30, "a")]), text(40, "b")]));
}

#[test]
fn generate_new_ids_changes_identities_only() {
    let mut tree = element(1, Some("n"), vec![text(2, "a"), element(3, None, vec![text(4, "b")])]);
    tree.generate_new_ids();
    let mut seen = vec![1u128, 2, 3, 4];
    ids(&tree, &mut seen);
    assert_eq!(seen.len(), 8);
    assert!(all_different(&seen));
    tree.relabel(&vec![1, 2, 3, 4], 0);
    assert_eq!(tree, element(1, Some("n"), vec![text(2, "a"), element(3, None, vec![text(4, "b")])]));
}

#[test]
fn child_is_added_to_the_named_element() {
    let mut doc = document();
    assert_eq!(doc.add_element("list", text(9, "new")), Ok(9));
    assert_eq!(doc.root, element(1, None, vec![text(2, "t"), element(3, Some("list"), vec![text(4, "x"), text(9, "new")])]));
}

#[test]
fn child_is_not_added_without_a_target() {
    let mut doc = document();
    assert_eq!(doc.add_element("none", text(9, "new")), Err(DocumentError::TargetIdNotFound));
    assert_eq!(doc.add_element("lost", text(9, "new")), Err(DocumentError::TargetNotFound));
    assert_eq!(doc.add_element("label", text(9, "new")), Err(DocumentError::TargetNotElement));
    assert_eq!(doc.root, document().root);
    assert_eq!(DocumentError::TargetIdNotFound.message(), "target id not found");
    assert_eq!(DocumentError::TargetNotFound.message(), "target not found");
    assert_eq!(DocumentError::TargetNotElement.message(), "target is not an element");
}

#[test]
fn later_binding_of_a_name_hides_the_earlier() {
    let mut names = NameMap::new();
    names.insert("a".to_string(), 1u128);
    names.insert("b".to_string(), 2u128);
    names.insert("a".to_string(), 3u128);
    assert_eq!(names.get("a"), Some(&3));
    assert_eq!(names.get("b"), Some(&2));
    assert_eq!(names.get("c"), None);
}

#[test]
fn attribute_map_keeps_keys_unique() {
    let mut map = Attributes::new();
    assert!(map.is_empty());
    map.insert("a".to_string(), "1".to_string());
    map.insert("b".to_string(), "2".to_string());
    map.insert("a".to_string(), "3".to_string());
    assert_eq!(map.len(), 2);
    assert_eq!(map.key_at(0), "a");
    assert_eq!(map.value_at(0), "3");
    assert_eq!(map.position("b"), Some(1));
    assert!(map.contains_key("a"));
    map.remove("a");
    map.remove("zzz");
    assert_eq!(map.len(), 1);
    assert!(!map.contains_key("a"));
    assert_eq!(map.get("b"), Some(&"2".to_string()));
    assert_eq!(map.position("a"), None);
    let copy = map.clone();
    assert!(copy.same_as(&map));
    assert_eq!(copy, map);
    map.insert("c".to_string(), "4".to_string());
    assert!(!copy.same_as(&map));
    assert_ne!(copy, map);
}
