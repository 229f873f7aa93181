//! The document tree: elements and texts with stable identities.
use vstd::prelude::*;
use crate::attributes::{Attributes, Entries, distinct_keys, same_bindings};
use crate::styles::Style;
use crate::text::str_eq;

verus! {

/// What a node is, as a mathematical value.
pub enum NodeModel {
    Element {
        identity: u128,
        name: Option<Seq<char>>,
        tag: Seq<char>,
        attrs: Entries,
        style: Style,
        children: Seq<NodeModel>,
    },
    Text {
        identity: u128,
        name: Option<Seq<char>>,
        attrs: Entries,
        style: Style,
        template: Seq<char>,
        rendered: Seq<char>,
    },
}

/// A node of the document tree.
#[derive(Debug, PartialEq)]
pub enum VNode {
    Element(ElementNode),
    Text(TextNode),
}

/// An element: a tag with attributes and an ordered list of children.
#[derive(Debug, PartialEq)]
pub struct ElementNode {
    pub internal_id: u128,
    pub id: Option<String>,
    pub tag: String,
    pub attrs: Attributes,
    pub style: Style,
    pub children: Vec<VNode>,
}

/// A text: a template and the string that it currently renders to.
#[derive(Debug, PartialEq)]
pub struct TextNode {
    pub internal_id: u128,
    pub id: Option<String>,
    pub attrs: Attributes,
    pub style: Style,
    pub template: String,
    pub rendered: String,
}

/// The character sequence of an optional string.
pub open spec fn name_view(name: Option<String>) -> Option<Seq<char>> {
    match name {
        Some(s) => Some(s@),
        None => None,
    }
}

impl View for TextNode {
    type V = NodeModel;

    open spec fn view(&self) -> NodeModel {
        NodeModel::Text {
            identity: self.internal_id,
            name: name_view(self.id),
            attrs: self.attrs@,
            style: self.style,
            template: self.template@,
            rendered: self.rendered@,
        }
    }
}

impl View for ElementNode {
    type V = NodeModel;

    open spec fn view(&self) -> NodeModel {
        NodeModel::Element {
            identity: self.internal_id,
            name: name_view(self.id),
            tag: self.tag@,
            attrs: self.attrs@,
            style: self.style,
            children: nodes_view(self.children@),
        }
    }
}

/// The models of a list of nodes, in order.
pub open spec fn nodes_view(nodes: Seq<VNode>) -> Seq<NodeModel>
    decreases nodes,
{
    Seq::new(
        nodes.len(),
        |i: int|
            if 0 <= i < nodes.len() {
                node_model(nodes[i])
            } else {
                arbitrary()
            },
    )
}

/// The model of a node.
pub open spec fn node_model(node: VNode) -> NodeModel
    decreases node,
{
    match node {
        VNode::Element(e) => NodeModel::Element {
            identity: e.internal_id,
            name: name_view(e.id),
            tag: e.tag@,
            attrs: e.attrs@,
            style: e.style,
            children: nodes_view(e.children@),
        },
        VNode::Text(t) => t@,
    }
}

impl View for VNode {
    type V = NodeModel;

    open spec fn view(&self) -> NodeModel {
        node_model(*self)
    }
}

/// Whether `id` is an identity in one of the first `n` trees of `nodes`.
pub open spec fn any_has_id(nodes: Seq<NodeModel>, n: int, id: u128) -> bool {
    exists|i: int| 0 <= i < n && i < nodes.len() && (#[trigger] nodes[i]).has_id(id)
}

impl NodeModel {
    /// The stable identity of the node.
    pub open spec fn id(self) -> u128 {
        match self {
            NodeModel::Element { identity, .. } => identity,
            NodeModel::Text { identity, .. } => identity,
        }
    }

    /// The children of an element; a text has none.
    pub open spec fn kids(self) -> Seq<NodeModel> {
        match self {
            NodeModel::Element { children, .. } => children,
            NodeModel::Text { .. } => Seq::empty(),
        }
    }

    /// The resolved style of the node.
    pub open spec fn node_style(self) -> Style {
        match self {
            NodeModel::Element { style, .. } => style,
            NodeModel::Text { style, .. } => style,
        }
    }

    /// Whether `id` is the identity of this node or of a node below it.
    pub open spec fn has_id(self, id: u128) -> bool
        decreases self,
    {
        match self {
            NodeModel::Element { identity, children, .. } => identity == id || exists|i: int|
                0 <= i < children.len() && (#[trigger] children[i]).has_id(id),
            NodeModel::Text { identity, .. } => identity == id,
        }
    }

    /// No identity occurs twice in the tree.
    pub open spec fn distinct_ids(self) -> bool
        decreases self,
    {
        match self {
            NodeModel::Element { identity, children, .. } => {
                &&& forall|i: int|
                    0 <= i < children.len() ==> !(#[trigger] children[i]).has_id(identity)
                &&& forall|i: int, j: int, id: u128|
                    0 <= i < j < children.len() ==> !(#[trigger] children[i].has_id(id)
                        && #[trigger] children[j].has_id(id))
                &&& forall|i: int|
                    0 <= i < children.len() ==> (#[trigger] children[i]).distinct_ids()
            },
            NodeModel::Text { .. } => true,
        }
    }

    /// No attribute key occurs twice, in this node or below it.
    pub open spec fn well_formed(self) -> bool
        decreases self,
    {
        match self {
            NodeModel::Element { attrs, children, .. } => {
                &&& distinct_keys(attrs)
                &&& forall|i: int|
                    0 <= i < children.len() ==> (#[trigger] children[i]).well_formed()
            },
            NodeModel::Text { attrs, .. } => distinct_keys(attrs),
        }
    }

    /// The two nodes are the same value: every field agrees, attributes as
    /// mappings, children pairwise.
    pub open spec fn equivalent(self, other: NodeModel) -> bool
        decreases self,
    {
        match (self, other) {
            (
                NodeModel::Element { identity, name, tag, attrs, style, children },
                NodeModel::Element {
                    identity: identity2,
                    name: name2,
                    tag: tag2,
                    attrs: attrs2,
                    style: style2,
                    children: children2,
                },
            ) => {
                &&& identity == identity2
                &&& name == name2
                &&& tag == tag2
                &&& same_bindings(attrs, attrs2)
                &&& style == style2
                &&& children.len() == children2.len()
                &&& forall|i: int|
                    0 <= i < children.len() ==> (#[trigger] children[i]).equivalent(children2[i])
            },
            (
                NodeModel::Text { identity, name, attrs, style, template, rendered },
                NodeModel::Text {
                    identity: identity2,
                    name: name2,
                    attrs: attrs2,
                    style: style2,
                    template: template2,
                    rendered: rendered2,
                },
            ) => {
                &&& identity == identity2
                &&& name == name2
                &&& same_bindings(attrs, attrs2)
                &&& style == style2
                &&& template == template2
                &&& rendered == rendered2
            },
            _ => false,
        }
    }

    /// The two trees have the same shape and content: tags, attributes as
    /// mappings and child order agree, and texts are the same value. The
    /// identity, name and style of an element are not compared.
    pub open spec fn same_structure(self, other: NodeModel) -> bool
        decreases self,
    {
        match (self, other) {
            (
                NodeModel::Element { tag, attrs, children, .. },
                NodeModel::Element { tag: tag2, attrs: attrs2, children: children2, .. },
            ) => {
                &&& tag == tag2
                &&& same_bindings(attrs, attrs2)
                &&& children.len() == children2.len()
                &&& forall|i: int|
                    0 <= i < children.len() ==> (#[trigger] children[i]).same_structure(
                        children2[i],
                    )
            },
            (NodeModel::Text { .. }, NodeModel::Text { .. }) => self.equivalent(other),
            _ => false,
        }
    }
}

/// A copy of an optional string.
pub fn clone_name(name: &Option<String>) -> (r: Option<String>)
    ensures
        name_view(r) == name_view(*name),
{
    match name {
        Some(s) => Some(s.clone()),
        None => None,
    }
}

/// Whether two optional strings hold the same characters.
pub fn same_name(a: &Option<String>, b: &Option<String>) -> (r: bool)
    ensures
        r == (name_view(*a) == name_view(*b)),
{
    match (a, b) {
        (Some(x), Some(y)) => str_eq(x.as_str(), y.as_str()),
        (None, None) => true,
        _ => false,
    }
}

/// A copy of a list of nodes.
pub fn clone_nodes(nodes: &Vec<VNode>) -> (r: Vec<VNode>)
    ensures
        nodes_view(r@) == nodes_view(nodes@),
    decreases nodes,
{
    let mut out: Vec<VNode> = Vec::new();
    let n = nodes.len();
    let mut i: usize = 0;
    while i < n
        invariant
            n == nodes@.len(),
            i <= n,
            out@.len() == i,
            forall|j: int| 0 <= j < i ==> (#[trigger] out@[j])@ == nodes@[j]@,
        decreases n - i,
    {
        out.push(nodes[i].clone());
        i += 1;
    }
    assert(nodes_view(out@) =~= nodes_view(nodes@));
    out
}

impl Clone for TextNode {
    fn clone(&self) -> (r: Self)
        ensures
            r@ == self@,
    {
        TextNode {
            internal_id: self.internal_id,
            id: clone_name(&self.id),
            attrs: self.attrs.clone(),
            style: self.style,
            template: self.template.clone(),
            rendered: self.rendered.clone(),
        }
    }
}

impl Clone for ElementNode {
    fn clone(&self) -> (r: Self)
        ensures
            r@ == self@,
        decreases self,
    {
        ElementNode {
            internal_id: self.internal_id,
            id: clone_name(&self.id),
            tag: self.tag.clone(),
            attrs: self.attrs.clone(),
            style: self.style,
            children: clone_nodes(&self.children),
        }
    }
}

impl Clone for VNode {
    fn clone(&self) -> (r: Self)
        ensures
            r@ == self@,
        decreases self,
    {
        match self {
            VNode::Element(e) => VNode::Element(e.clone()),
            VNode::Text(t) => VNode::Text(t.clone()),
        }
    }
}

impl TextNode {
    /// Whether two texts are the same value: every field agrees, the
    /// attributes as mappings.
    pub fn same_as(&self, other: &TextNode) -> (r: bool)
        ensures
            r == self@.equivalent(other@),
    {
        self.internal_id == other.internal_id && same_name(&self.id, &other.id)
            && self.attrs.same_as(&other.attrs) && self.style == other.style && self.template
            == other.template && self.rendered == other.rendered
    }
}

impl VNode {
    /// Recalls that no attribute key occurs twice anywhere in a tree: walks
    /// the tree and changes nothing.
    pub fn recall_well_formed(&self)
        ensures
            self@.well_formed(),
        decreases self,
    {
        match self {
            VNode::Element(el) => {
                el.attrs.distinct();
                let ghost models = nodes_view(el.children@);
                let n = el.children.len();
                let mut i: usize = 0;
                while i < n
                    invariant
                        n == el.children@.len(),
                        models == nodes_view(el.children@),
                        i <= n,
                        decreases_to!(self => el.children),
                        forall|j: int| 0 <= j < i ==> (#[trigger] models[j]).well_formed(),
                    decreases n - i,
                {
                    assert(models[i as int] == el.children@[i as int]@);
                    el.children[i].recall_well_formed();
                    i += 1;
                }
            },
            VNode::Text(t) => {
                t.attrs.distinct();
            },
        }
    }

    /// The stable identity of the node.
    pub fn get_internal_id(&self) -> (id: u128)
        ensures
            id == self@.id(),
    {
        match self {
            VNode::Element(el) => el.internal_id,
            VNode::Text(t) => t.internal_id,
        }
    }

    /// The resolved style of the node.
    pub fn get_style(&self) -> (style: &Style)
        ensures
            *style == self@.node_style(),
    {
        match self {
            VNode::Element(el) => &el.style,
            VNode::Text(t) => &t.style,
        }
    }
}

} // verus!
