//! From parsed markup to the document: the tree, the templates and the
//! names of its elements.
use vstd::prelude::*;
use crate::attributes::{Attributes, Entries, with_binding};
use crate::document::{NameMap, VDom};
use crate::identity::same_shape;
use crate::parser::{parse_styles, styles_of};
use crate::styles::{Style, style_of};
use crate::text::{chars_of, part_of, str_eq, trim_bounds, trimmed};
use crate::vdom::{ElementNode, NodeModel, TextNode, VNode, nodes_view};

verus! {

/// A node of parsed markup.
#[derive(Debug)]
pub enum Markup {
    /// An element with its name, its attributes in source order and its children.
    Element(MarkupElement),
    /// A run of text.
    Text(String),
    /// Anything else, such as a comment.
    Other,
}

/// An element of parsed markup.
#[derive(Debug)]
pub struct MarkupElement {
    pub name: String,
    pub attrs: Vec<(String, String)>,
    pub children: Vec<Markup>,
}

/// What a node of parsed markup is, as a mathematical value.
pub enum MarkupModel {
    Element { name: Seq<char>, attrs: Entries, children: Seq<MarkupModel> },
    Text(Seq<char>),
    Other,
}

/// The character sequences of a list of attributes.
pub open spec fn pairs_view(attrs: Seq<(String, String)>) -> Entries {
    Seq::new(attrs.len(), |i: int| (attrs[i].0@, attrs[i].1@))
}

/// The models of a list of markup nodes, in order.
pub open spec fn markups_view(nodes: Seq<Markup>) -> Seq<MarkupModel>
    decreases nodes,
{
    Seq::new(
        nodes.len(),
        |i: int|
            if 0 <= i < nodes.len() {
                markup_model(nodes[i])
            } else {
                arbitrary()
            },
    )
}

/// The model of a markup element.
pub open spec fn element_model(element: MarkupElement) -> MarkupModel
    decreases element,
{
    MarkupModel::Element {
        name: element.name@,
        attrs: pairs_view(element.attrs@),
        children: markups_view(element.children@),
    }
}

/// The model of a markup node.
pub open spec fn markup_model(node: Markup) -> MarkupModel
    decreases node,
{
    match node {
        Markup::Element(e) => element_model(e),
        Markup::Text(t) => MarkupModel::Text(t@),
        Markup::Other => MarkupModel::Other,
    }
}

impl View for MarkupElement {
    type V = MarkupModel;

    open spec fn view(&self) -> MarkupModel {
        element_model(*self)
    }
}

impl View for Markup {
    type V = MarkupModel;

    open spec fn view(&self) -> MarkupModel {
        markup_model(*self)
    }
}

impl MarkupModel {
    /// The name of an element; a text has none.
    pub open spec fn tag(self) -> Seq<char> {
        match self {
            MarkupModel::Element { name, .. } => name,
            _ => Seq::empty(),
        }
    }

    /// The attributes of an element.
    pub open spec fn attributes(self) -> Entries {
        match self {
            MarkupModel::Element { attrs, .. } => attrs,
            _ => Seq::empty(),
        }
    }

    /// The children of an element.
    pub open spec fn content(self) -> Seq<MarkupModel> {
        match self {
            MarkupModel::Element { children, .. } => children,
            _ => Seq::empty(),
        }
    }
}

/// The value of the first of the attributes from `from` on that has the name `key`.
pub open spec fn attribute(attrs: Entries, key: Seq<char>, from: int) -> Option<Seq<char>>
    decreases attrs.len() - from,
{
    if from < 0 || from >= attrs.len() {
        None
    } else if attrs[from].0 == key {
        Some(attrs[from].1)
    } else {
        attribute(attrs, key, from + 1)
    }
}

/// `base` with the first `n` bindings of `extra`, each overriding what was bound before.
pub open spec fn merged(base: Entries, extra: Entries, n: int) -> Entries
    decreases n,
{
    if n <= 0 {
        base
    } else {
        with_binding(merged(base, extra, n - 1), extra[n - 1].0, extra[n - 1].1)
    }
}

/// The attribute mapping of the first `n` markup attributes: a `style`
/// attribute contributes its declarations, any other attribute itself.
pub open spec fn attrs_of(attrs: Entries, n: int) -> Entries
    decreases n,
{
    if n <= 0 {
        Seq::empty()
    } else {
        let prev = attrs_of(attrs, n - 1);
        let a = attrs[n - 1];
        if a.0 == "style"@ {
            merged(prev, styles_of(a.1), styles_of(a.1).len() as int)
        } else {
            with_binding(prev, a.0, a.1)
        }
    }
}

/// Whether a child of an element stays out of the tree: templates and scripts do.
pub open spec fn is_set_aside(name: Seq<char>) -> bool {
    name == "template"@ || name == "script"@
}

/// The nodes that the first `n` children of an element with the attributes `attrs` become.
pub open spec fn nodes_of(children: Seq<MarkupModel>, attrs: Entries, n: int) -> Seq<NodeModel>
    decreases children, n,
{
    if n <= 0 || n > children.len() {
        Seq::empty()
    } else {
        let prev = nodes_of(children, attrs, n - 1);
        match children[n - 1] {
            MarkupModel::Element { name, .. } => if is_set_aside(name) {
                prev
            } else {
                prev.push(tree_of(children[n - 1]))
            },
            MarkupModel::Text(t) => if trimmed(t).len() == 0 {
                prev
            } else {
                prev.push(
                    NodeModel::Text {
                        identity: 0,
                        name: None,
                        attrs,
                        style: style_of(attrs),
                        template: trimmed(t),
                        rendered: Seq::empty(),
                    },
                )
            },
            MarkupModel::Other => prev,
        }
    }
}

/// The tree that an element becomes, with the identity zero everywhere:
/// its name is its `id` attribute, its style is resolved from its
/// attributes, a text below it holds the trimmed text as its template and
/// takes the attributes of the element; templates, scripts, blank texts and
/// comments are left out.
pub open spec fn tree_of(element: MarkupModel) -> NodeModel
    decreases element, 0int,
{
    let attrs = attrs_of(element.attributes(), element.attributes().len() as int);
    NodeModel::Element {
        identity: 0,
        name: attribute(element.attributes(), "id"@, 0),
        tag: element.tag(),
        attrs,
        style: style_of(attrs),
        children: match element {
            MarkupModel::Element { children, .. } => nodes_of(children, attrs, children.len() as int),
            _ => Seq::empty(),
        },
    }
}

/// The value of the attribute `key`.
pub fn attribute_value<'a>(attrs: &'a Vec<(String, String)>, key: &str) -> (r: Option<&'a String>)
    ensures
        match r {
            Some(v) => attribute(pairs_view(attrs@), key@, 0) == Some(v@),
            None => attribute(pairs_view(attrs@), key@, 0).is_none(),
        },
{
    let n = attrs.len();
    let mut i: usize = 0;
    while i < n
        invariant
            n == attrs@.len(),
            i <= n,
            attribute(pairs_view(attrs@), key@, 0) == attribute(pairs_view(attrs@), key@, i as int),
        decreases n - i,
    {
        if str_eq(attrs[i].0.as_str(), key) {
            return Some(&attrs[i].1);
        }
        i += 1;
    }
    None
}

/// The attribute mapping of the attributes of an element.
pub fn read_attributes(attrs: &Vec<(String, String)>) -> (r: Attributes)
    ensures
        r@ == attrs_of(pairs_view(attrs@), attrs@.len() as int),
{
    let mut out = Attributes::new();
    let n = attrs.len();
    let mut i: usize = 0;
    while i < n
        invariant
            n == attrs@.len(),
            i <= n,
            out@ == attrs_of(pairs_view(attrs@), i as int),
        decreases n - i,
    {
        if str_eq(attrs[i].0.as_str(), "style") {
            let declared = parse_styles(attrs[i].1.as_str());
            let m = declared.len();
            let ghost base = out@;
            let mut j: usize = 0;
            while j < m
                invariant
                    m == declared@.len(),
                    j <= m,
                    out@ == merged(base, declared@, j as int),
                decreases m - j,
            {
                out.insert(declared.key_at(j).clone(), declared.value_at(j).clone());
                j += 1;
            }
        } else {
            out.insert(attrs[i].0.clone(), attrs[i].1.clone());
        }
        i += 1;
    }
    out
}

/// The tree that an element becomes, with the identity zero everywhere.
pub fn build_element(element: &MarkupElement) -> (r: VNode)
    ensures
        r@ == tree_of(element@),
    decreases element,
{
    let attrs = read_attributes(&element.attrs);
    let style = Style::from_hashmap(&attrs);
    let ghost content = markups_view(element.children@);
    let mut children: Vec<VNode> = Vec::new();
    let n = element.children.len();
    let mut i: usize = 0;
    assert(nodes_view(children@) =~= nodes_of(content, attrs@, 0));
    while i < n
        invariant
            n == element.children@.len(),
            content == markups_view(element.children@),
            i <= n,
            decreases_to!(element => element.children),
            style == style_of(attrs@),
            nodes_view(children@) == nodes_of(content, attrs@, i as int),
        decreases n - i,
    {
        let ghost before = children@;
        assert(content[i as int] == element.children@[i as int]@);
        match &element.children[i] {
            Markup::Element(child) => {
                if !(str_eq(child.name.as_str(), "template") || str_eq(
                    child.name.as_str(),
                    "script",
                )) {
                    let node = build_element(child);
                    let ghost added = node@;
                    children.push(node);
                    assert(nodes_view(children@) =~= nodes_view(before).push(added));
                }
            },
            Markup::Text(text) => {
                let letters = chars_of(text.as_str());
                let bounds = trim_bounds(&letters, 0, letters.len());
                assert(letters@.subrange(0, letters@.len() as int) =~= letters@);
                if bounds.1 > bounds.0 {
                    let node = VNode::Text(
                        TextNode {
                            internal_id: 0,
                            id: None,
                            attrs: attrs.clone(),
                            style,
                            template: part_of(text.as_str(), &letters, bounds.0, bounds.1),
                            rendered: String::new(),
                        },
                    );
                    let ghost added = node@;
                    children.push(node);
                    assert(nodes_view(children@) =~= nodes_view(before).push(added));
                }
            },
            Markup::Other => {},
        }
        i += 1;
    }
    let id = match attribute_value(&element.attrs, "id") {
        Some(v) => Some(v.clone()),
        None => None,
    };
    VNode::Element(
        ElementNode {
            internal_id: 0,
            id,
            tag: element.name.clone(),
            attrs,
            style,
            children,
        },
    )
}

/// Turns an element of the page into a document tree in which every node has a new identity.
pub fn parse_element(element: &MarkupElement) -> (r: VNode)
    ensures
        same_shape(r@, tree_of(element@)),
{
    let mut node = build_element(element);
    node.generate_new_ids();
    node
}

/// Turns the root element of a template into a document tree in which every node has a new identity.
pub fn parse_templates(element: &MarkupElement) -> (r: VNode)
    ensures
        same_shape(r@, tree_of(element@)),
{
    let mut node = build_element(element);
    node.generate_new_ids();
    node
}

/// The elements with the name `name` in the tree of `node`, read from the
/// top and from left to right.
pub open spec fn named_in(node: MarkupModel, name: Seq<char>) -> Seq<MarkupModel>
    decreases node, 0int,
{
    match node {
        MarkupModel::Element { name: own, children, .. } => (if own == name {
            seq![node]
        } else {
            Seq::empty()
        }) + named_among(children, name, children.len() as int),
        _ => Seq::empty(),
    }
}

/// The elements with the name `name` in the first `n` trees of `nodes`.
pub open spec fn named_among(nodes: Seq<MarkupModel>, name: Seq<char>, n: int) -> Seq<MarkupModel>
    decreases nodes, n,
{
    if n <= 0 || n > nodes.len() {
        Seq::empty()
    } else {
        named_among(nodes, name, n - 1) + named_in(nodes[n - 1], name)
    }
}

/// The models of a list of elements.
pub open spec fn elements_view(elements: Seq<&MarkupElement>) -> Seq<MarkupModel> {
    Seq::new(elements.len(), |i: int| elements[i]@)
}

/// Adds the elements with the name `name` in the tree of `node` to `out`.
pub fn collect_named<'a>(node: &'a Markup, name: &str, out: &mut Vec<&'a MarkupElement>)
    ensures
        elements_view(final(out)@) == elements_view(old(out)@) + named_in(node@, name@),
    decreases node,
{
    match node {
        Markup::Element(element) => {
            let ghost start = elements_view(out@);
            if str_eq(element.name.as_str(), name) {
                out.push(element);
            }
            let ghost head = elements_view(out@);
            assert(head =~= start + if element.name@ == name@ {
                seq![node@]
            } else {
                Seq::<MarkupModel>::empty()
            });
            let ghost content = markups_view(element.children@);
            let n = element.children.len();
            let mut i: usize = 0;
            assert(elements_view(out@) =~= head + named_among(content, name@, 0));
            while i < n
                invariant
                    n == element.children@.len(),
                    content == markups_view(element.children@),
                    i <= n,
                    decreases_to!(node => element.children),
                    elements_view(out@) == head + named_among(content, name@, i as int),
                decreases n - i,
            {
                assert(content[i as int] == element.children@[i as int]@);
                collect_named(&element.children[i], name, out);
                assert(head + (named_among(content, name@, i as int) + named_in(
                    content[i as int],
                    name@,
                )) =~= head + named_among(content, name@, i as int) + named_in(
                    content[i as int],
                    name@,
                ));
                i += 1;
            }
            assert(start + ((if element.name@ == name@ {
                seq![node@]
            } else {
                Seq::<MarkupModel>::empty()
            }) + named_among(content, name@, n as int)) =~= head + named_among(
                content,
                name@,
                n as int,
            ));
        },
        Markup::Text(_) => {
            assert(elements_view(out@) =~= elements_view(out@) + Seq::<MarkupModel>::empty());
        },
        Markup::Other => {
            assert(elements_view(out@) =~= elements_view(out@) + Seq::<MarkupModel>::empty());
        },
    }
}

/// Why markup is no document.
#[derive(Clone, Copy, Debug, PartialEq, Eq, Structural)]
pub enum ParseError {
    /// A template has no `id` attribute.
    TemplateWithoutId,
    /// A template holds no element.
    TemplateWithoutChild,
    /// A template holds more than one element at its top.
    TemplateWithManyRoots,
    /// The markup has no `body` element.
    BodyNotFound,
}

impl ParseError {
    /// The error in words.
    pub fn message(&self) -> (r: &'static str)
        ensures
            r@ == self.words(),
    {
        match self {
            ParseError::TemplateWithoutId => "template without id",
            ParseError::TemplateWithoutChild => "template tag must contain one child element",
            ParseError::TemplateWithManyRoots => "template tag must contain only one root element",
            ParseError::BodyNotFound => "<body> not found",
        }
    }

    /// The words for each error.
    pub open spec fn words(&self) -> Seq<char> {
        match self {
            ParseError::TemplateWithoutId => "template without id"@,
            ParseError::TemplateWithoutChild => "template tag must contain one child element"@,
            ParseError::TemplateWithManyRoots => "template tag must contain only one root element"@,
            ParseError::BodyNotFound => "<body> not found"@,
        }
    }
}

/// The elements among the first `n` of `nodes`.
pub open spec fn elements_among(nodes: Seq<MarkupModel>, n: int) -> Seq<MarkupModel>
    decreases n,
{
    if n <= 0 || n > nodes.len() {
        Seq::empty()
    } else if nodes[n - 1] is Element {
        elements_among(nodes, n - 1).push(nodes[n - 1])
    } else {
        elements_among(nodes, n - 1)
    }
}

/// The name and the root element of a template, which has to have an `id`
/// attribute and exactly one element at its top.
pub open spec fn template_parts(template: MarkupModel) -> Result<
    (Seq<char>, MarkupModel),
    ParseError,
> {
    match attribute(template.attributes(), "id"@, 0) {
        None => Err(ParseError::TemplateWithoutId),
        Some(id) => {
            let roots = elements_among(template.content(), template.content().len() as int);
            if roots.len() == 0 {
                Err(ParseError::TemplateWithoutChild)
            } else if roots.len() > 1 {
                Err(ParseError::TemplateWithManyRoots)
            } else {
                Ok((id, roots[0]))
            }
        },
    }
}

/// The failure of the first of the first `n` templates that is not well formed.
pub open spec fn first_failure(templates: Seq<MarkupModel>, n: int) -> Option<ParseError>
    decreases n,
{
    if n <= 0 || n > templates.len() {
        None
    } else {
        match first_failure(templates, n - 1) {
            Some(e) => Some(e),
            None => match template_parts(templates[n - 1]) {
                Ok(_) => None,
                Err(e) => Some(e),
            },
        }
    }
}

/// Why `document` is no document, if it is none: the first template that
/// is not well formed, or else the lack of a body.
pub open spec fn document_error(document: MarkupModel) -> Option<ParseError> {
    let templates = named_in(document, "template"@);
    match first_failure(templates, templates.len() as int) {
        Some(e) => Some(e),
        None => if named_in(document, "body"@).len() == 0 {
            Some(ParseError::BodyNotFound)
        } else {
            None
        },
    }
}

/// The names that the elements of a tree carry, each with the identity of
/// its element, read from the top and from left to right.
pub open spec fn names_of(node: NodeModel) -> Seq<(Seq<char>, u128)>
    decreases node, 0int,
{
    match node {
        NodeModel::Element { identity, name, children, .. } => (match name {
            Some(n) => seq![(n, identity)],
            None => Seq::empty(),
        }) + names_among(children, children.len() as int),
        NodeModel::Text { .. } => Seq::empty(),
    }
}

/// The names that the elements of the first `n` trees of `nodes` carry.
pub open spec fn names_among(nodes: Seq<NodeModel>, n: int) -> Seq<(Seq<char>, u128)>
    decreases nodes, n,
{
    if n <= 0 || n > nodes.len() {
        Seq::empty()
    } else {
        names_among(nodes, n - 1) + names_of(nodes[n - 1])
    }
}

/// The character sequences of a list of named identities.
pub open spec fn names_view(entries: Seq<(String, u128)>) -> Seq<(Seq<char>, u128)> {
    Seq::new(entries.len(), |i: int| (entries[i].0@, entries[i].1))
}

/// Binds the name of every named element of the tree to its identity.
pub fn index_node(node: &VNode, id_map: &mut NameMap<u128>)
    ensures
        names_view(final(id_map).entries@) == names_view(old(id_map).entries@) + names_of(node@),
    decreases node,
{
    match node {
        VNode::Element(el) => {
            let ghost start = names_view(id_map.entries@);
            match &el.id {
                Some(html_id) => {
                    id_map.insert(html_id.clone(), el.internal_id);
                },
                None => {},
            }
            let ghost head = names_view(id_map.entries@);
            let ghost own = match node@ {
                NodeModel::Element { identity, name: Some(n), .. } => seq![(n, identity)],
                _ => Seq::<(Seq<char>, u128)>::empty(),
            };
            assert(head =~= start + own);
            let ghost models = nodes_view(el.children@);
            let n = el.children.len();
            let mut i: usize = 0;
            assert(names_view(id_map.entries@) =~= head + names_among(models, 0));
            while i < n
                invariant
                    n == el.children@.len(),
                    models == nodes_view(el.children@),
                    i <= n,
                    decreases_to!(node => el.children),
                    names_view(id_map.entries@) == head + names_among(models, i as int),
                decreases n - i,
            {
                assert(models[i as int] == el.children@[i as int]@);
                index_node(&el.children[i], id_map);
                assert(head + (names_among(models, i as int) + names_of(models[i as int]))
                    =~= head + names_among(models, i as int) + names_of(models[i as int]));
                i += 1;
            }
            assert(start + (own + names_among(models, n as int)) =~= head + names_among(
                models,
                n as int,
            ));
        },
        VNode::Text(_) => {
            assert(names_view(id_map.entries@) =~= names_view(id_map.entries@) + Seq::<
                (Seq<char>, u128),
            >::empty());
        },
    }
}

/// The elements among the children of `element`.
fn element_children(element: &MarkupElement) -> (r: Vec<&MarkupElement>)
    ensures
        elements_view(r@) == elements_among(element@.content(), element@.content().len() as int),
{
    let mut out: Vec<&MarkupElement> = Vec::new();
    let ghost content = markups_view(element.children@);
    let n = element.children.len();
    let mut i: usize = 0;
    assert(elements_view(out@) =~= elements_among(content, 0));
    while i < n
        invariant
            n == element.children@.len(),
            content == markups_view(element.children@),
            i <= n,
            elements_view(out@) == elements_among(content, i as int),
        decreases n - i,
    {
        let ghost before = out@;
        assert(content[i as int] == element.children@[i as int]@);
        match &element.children[i] {
            Markup::Element(child) => {
                out.push(child);
                assert(elements_view(out@) =~= elements_view(before).push(child@));
            },
            _ => {},
        }
        i += 1;
    }
    out
}

/// Whether `v` is the document that `document` describes: its tree is
/// that of the first body, its templates are those of the markup in order,
/// each under its name, and its names are those of its tree. Identities are
/// new everywhere.
pub open spec fn describes(document: MarkupModel, v: VDom) -> bool {
    let templates = named_in(document, "template"@);
    &&& named_in(document, "body"@).len() > 0
    &&& same_shape(v.root@, tree_of(named_in(document, "body"@)[0]))
    &&& names_view(v.id_map.entries@) == names_of(v.root@)
    &&& v.templates.entries@.len() == templates.len()
    &&& forall|i: int|
        0 <= i < templates.len() ==> template_parts(#[trigger] templates[i]) is Ok
            && v.templates.entries@[i].0@ == template_parts(templates[i])->Ok_0.0 && same_shape(
            v.templates.entries@[i].1@,
            tree_of(template_parts(templates[i])->Ok_0.1),
        )
}

/// Builds the document of a parsed page: the tree of its body, its
/// templates and the names of its elements.
pub fn parse_html_to_vdom(document: &Markup) -> (r: Result<VDom, ParseError>)
    ensures
        match r {
            Ok(v) => document_error(document@).is_none() && describes(document@, v),
            Err(e) => document_error(document@) == Some(e),
        },
{
    let mut found: Vec<&MarkupElement> = Vec::new();
    collect_named(document, "template", &mut found);
    let ghost all = named_in(document@, "template"@);
    assert(elements_view(found@) =~= all);
    let mut templates: NameMap<VNode> = NameMap::new();
    let n = found.len();
    let mut i: usize = 0;
    while i < n
        invariant
            n == found@.len(),
            elements_view(found@) == all,
            all == named_in(document@, "template"@),
            i <= n,
            first_failure(all, i as int).is_none(),
            templates.entries@.len() == i,
            forall|j: int|
                0 <= j < i ==> template_parts(#[trigger] all[j]) is Ok && templates.entries@[j].0@
                    == template_parts(all[j])->Ok_0.0 && same_shape(
                    templates.entries@[j].1@,
                    tree_of(template_parts(all[j])->Ok_0.1),
                ),
        decreases n - i,
    {
        let tpl = found[i];
        assert(all[i as int] == found@[i as int]@);
        let id = match attribute_value(&tpl.attrs, "id") {
            Some(id) => id.clone(),
            None => {
                proof {
                    lemma_failure_stays(all, i as int + 1, n as int);
                }
                return Err(ParseError::TemplateWithoutId);
            },
        };
        let roots = element_children(tpl);
        if roots.len() == 0 {
            proof {
                lemma_failure_stays(all, i as int + 1, n as int);
            }
            return Err(ParseError::TemplateWithoutChild);
        }
        if roots.len() > 1 {
            proof {
                lemma_failure_stays(all, i as int + 1, n as int);
            }
            return Err(ParseError::TemplateWithManyRoots);
        }
        let vnode = parse_templates(roots[0]);
        assert(elements_view(roots@)[0] == roots@[0]@);
        templates.insert(id, vnode);
        i += 1;
    }
    let mut bodies: Vec<&MarkupElement> = Vec::new();
    collect_named(document, "body", &mut bodies);
    assert(elements_view(bodies@) =~= named_in(document@, "body"@));
    if bodies.len() == 0 {
        return Err(ParseError::BodyNotFound);
    }
    let root = parse_element(bodies[0]);
    assert(elements_view(bodies@)[0] == bodies@[0]@);
    let mut id_map: NameMap<u128> = NameMap::new();
    index_node(&root, &mut id_map);
    assert(names_view(id_map.entries@) =~= names_of(root@));
    Ok(VDom { root, templates, id_map })
}

/// Once a template has failed, more templates do not change the failure.
pub proof fn lemma_failure_stays(templates: Seq<MarkupModel>, n: int, m: int)
    requires
        first_failure(templates, n) is Some,
        0 <= n <= m <= templates.len(),
    ensures
        first_failure(templates, m) == first_failure(templates, n),
    decreases m - n,
{
    if n < m {
        lemma_failure_stays(templates, n, m - 1);
    }
}

/// The first text in the first `n` trees of `nodes`, read from the top and from left to right.
pub open spec fn first_text_among(nodes: Seq<MarkupModel>, n: int) -> Option<Seq<char>>
    decreases nodes, n,
{
    if n <= 0 || n > nodes.len() {
        None
    } else {
        match first_text_among(nodes, n - 1) {
            Some(t) => Some(t),
            None => first_text(nodes[n - 1]),
        }
    }
}

/// The first text in the tree of `node`.
pub open spec fn first_text(node: MarkupModel) -> Option<Seq<char>>
    decreases node, 0int,
{
    match node {
        MarkupModel::Element { children, .. } => first_text_among(children, children.len() as int),
        MarkupModel::Text(t) => Some(t),
        MarkupModel::Other => None,
    }
}

/// The texts of the first `n` of `scripts`: of each the first text that it holds, if any.
pub open spec fn script_texts(scripts: Seq<MarkupModel>, n: int) -> Seq<Seq<char>>
    decreases n,
{
    if n <= 0 || n > scripts.len() {
        Seq::empty()
    } else {
        match first_text(scripts[n - 1]) {
            Some(t) => script_texts(scripts, n - 1).push(t),
            None => script_texts(scripts, n - 1),
        }
    }
}

/// The character sequences of a list of strings.
pub open spec fn texts_view(texts: Seq<String>) -> Seq<Seq<char>> {
    Seq::new(texts.len(), |i: int| texts[i]@)
}

/// The first text in the tree of `node`.
pub fn find_first_text(node: &Markup) -> (r: Option<&String>)
    ensures
        match r {
            Some(t) => first_text(node@) == Some(t@),
            None => first_text(node@).is_none(),
        },
    decreases node,
{
    match node {
        Markup::Element(element) => {
            let ghost content = markups_view(element.children@);
            let n = element.children.len();
            let mut i: usize = 0;
            while i < n
                invariant
                    n == element.children@.len(),
                    content == markups_view(element.children@),
                    node@.content() == content,
                    node@ is Element,
                    i <= n,
                    decreases_to!(node => element.children),
                    first_text_among(content, i as int).is_none(),
                decreases n - i,
            {
                assert(content[i as int] == element.children@[i as int]@);
                match find_first_text(&element.children[i]) {
                    Some(t) => {
                        proof {
                            lemma_text_stays(content, i as int + 1, n as int);
                        }
                        return Some(t);
                    },
                    None => {},
                }
                i += 1;
            }
            None
        },
        Markup::Text(t) => Some(t),
        Markup::Other => None,
    }
}

/// Once a text is found, more trees do not change it.
pub proof fn lemma_text_stays(nodes: Seq<MarkupModel>, n: int, m: int)
    requires
        first_text_among(nodes, n) is Some,
        0 <= n <= m <= nodes.len(),
    ensures
        first_text_among(nodes, m) == first_text_among(nodes, n),
    decreases m - n,
{
    if n < m {
        lemma_text_stays(nodes, n, m - 1);
    }
}

/// The scripts of a parsed page: of every `script` element the first text that it holds.
pub fn load_lua_scripts(document: &Markup) -> (scripts: Vec<String>)
    ensures
        texts_view(scripts@) == script_texts(
            named_in(document@, "script"@),
            named_in(document@, "script"@).len() as int,
        ),
{
    let mut found: Vec<&MarkupElement> = Vec::new();
    collect_named(document, "script", &mut found);
    let ghost all = named_in(document@, "script"@);
    assert(elements_view(found@) =~= all);
    let mut scripts: Vec<String> = Vec::new();
    let n = found.len();
    let mut i: usize = 0;
    assert(texts_view(scripts@) =~= script_texts(all, 0));
    while i < n
        invariant
            n == found@.len(),
            elements_view(found@) == all,
            i <= n,
            texts_view(scripts@) == script_texts(all, i as int),
        decreases n - i,
    {
        let ghost before = scripts@;
        let script = found[i];
        assert(all[i as int] == found@[i as int]@);
        let ghost content = markups_view(script.children@);
        let m = script.children.len();
        let mut j: usize = 0;
        let mut text: Option<&String> = None;
        while j < m && text.is_none()
            invariant
                m == script.children@.len(),
                content == markups_view(script.children@),
                j <= m,
                match text {
                    Some(t) => first_text_among(content, m as int) == Some(t@),
                    None => first_text_among(content, j as int).is_none(),
                },
            decreases m - j,
        {
            assert(content[j as int] == script.children@[j as int]@);
            text = find_first_text(&script.children[j]);
            proof {
                if text.is_some() {
                    lemma_text_stays(content, j as int + 1, m as int);
                }
            }
            j += 1;
        }
        match text {
            Some(t) => {
                scripts.push(t.clone());
                assert(texts_view(scripts@) =~= texts_view(before).push(t@));
            },
            None => {},
        }
        i += 1;
    }
    scripts
}

} // verus!
