//! The document: the canonical tree, its templates and its named nodes.
use vstd::prelude::*;
use crate::identity::same_shape;
use crate::markup::{Markup, ParseError, describes, document_error, parse_html_to_vdom};
use crate::text::str_eq;
use crate::vdom::{NodeModel, VNode, nodes_view};

verus! {

/// The node that the identity `id` names in the first of `nodes` from
/// `from` on that has one.
pub open spec fn find_in(nodes: Seq<NodeModel>, from: int, id: u128) -> Option<NodeModel>
    decreases nodes, nodes.len() - from,
{
    if from < 0 || from >= nodes.len() {
        None
    } else {
        match find(nodes[from], id) {
            Some(n) => Some(n),
            None => find_in(nodes, from + 1, id),
        }
    }
}

/// The first node with the identity `id`, the tree read from the top and
/// from left to right.
pub open spec fn find(node: NodeModel, id: u128) -> Option<NodeModel>
    decreases node, 0int,
{
    if node.id() == id {
        Some(node)
    } else {
        match node {
            NodeModel::Element { children, .. } => find_in(children, 0, id),
            NodeModel::Text { .. } => None,
        }
    }
}

/// The first of `nodes` from `from` on in which `id` names a node, or the length of `nodes`.
pub open spec fn holder(nodes: Seq<NodeModel>, from: int, id: u128) -> int
    decreases nodes.len() - from,
{
    if from < 0 || from >= nodes.len() {
        nodes.len() as int
    } else if find(nodes[from], id) is Some {
        from
    } else {
        holder(nodes, from + 1, id)
    }
}

/// `node` with `child` as the new last child of the first node that `id`
/// names. A text takes no child: where `id` names one, nothing changes.
pub open spec fn appended(node: NodeModel, id: u128, child: NodeModel) -> NodeModel
    decreases node,
{
    match node {
        NodeModel::Element { identity, name, tag, attrs, style, children } => if identity == id {
            NodeModel::Element { identity, name, tag, attrs, style, children: children.push(child) }
        } else {
            let at = holder(children, 0, id);
            if 0 <= at < children.len() {
                NodeModel::Element {
                    identity,
                    name,
                    tag,
                    attrs,
                    style,
                    children: children.update(at, appended(children[at], id, child)),
                }
            } else {
                node
            }
        },
        NodeModel::Text { .. } => node,
    }
}

/// `node` with `other` in the place of the first node that `id` names.
pub open spec fn replaced(node: NodeModel, id: u128, other: NodeModel) -> NodeModel
    decreases node,
{
    if node.id() == id {
        other
    } else {
        match node {
            NodeModel::Element { identity, name, tag, attrs, style, children } => {
                let at = holder(children, 0, id);
                if 0 <= at < children.len() {
                    NodeModel::Element {
                        identity,
                        name,
                        tag,
                        attrs,
                        style,
                        children: children.update(at, replaced(children[at], id, other)),
                    }
                } else {
                    node
                }
            },
            NodeModel::Text { .. } => node,
        }
    }
}

/// The model of an optional node.
pub open spec fn found_view(r: Option<&VNode>) -> Option<NodeModel> {
    match r {
        Some(n) => Some(n@),
        None => None,
    }
}

/// Where `holder` points, `find_in` finds what `find` finds there.
pub proof fn lemma_holder(nodes: Seq<NodeModel>, from: int, id: u128)
    requires
        0 <= from <= nodes.len(),
    ensures
        from <= holder(nodes, from, id) <= nodes.len(),
        holder(nodes, from, id) < nodes.len() ==> find_in(nodes, from, id) == find(
            nodes[holder(nodes, from, id)],
            id,
        ) && find_in(nodes, from, id) is Some,
        holder(nodes, from, id) == nodes.len() ==> find_in(nodes, from, id) is None,
    decreases nodes.len() - from,
{
    if from < nodes.len() && find(nodes[from], id) is None {
        lemma_holder(nodes, from + 1, id);
    }
}

impl VNode {
    /// The first node with the identity `id`, the tree read from the top
    /// and from left to right.
    pub fn find_by_internal_id(&self, id: u128) -> (r: Option<&VNode>)
        ensures
            found_view(r) == find(self@, id),
        decreases self,
    {
        match self {
            VNode::Element(el) => {
                if el.internal_id == id {
                    return Some(self);
                }
                let ghost models = nodes_view(el.children@);
                let n = el.children.len();
                let mut i: usize = 0;
                while i < n
                    invariant
                        n == el.children@.len(),
                        models == nodes_view(el.children@),
                        i <= n,
                        decreases_to!(self => el.children),
                        find(self@, id) == find_in(models, 0, id),
                        find_in(models, 0, id) == find_in(models, i as int, id),
                    decreases n - i,
                {
                    assert(models[i as int] == el.children@[i as int]@);
                    match el.children[i].find_by_internal_id(id) {
                        Some(found) => {
                            return Some(found);
                        },
                        None => {},
                    }
                    i += 1;
                }
                None
            },
            VNode::Text(t) => {
                if t.internal_id == id {
                    Some(self)
                } else {
                    None
                }
            },
        }
    }

    /// Makes `child` the new last child of the first node that `id` names,
    /// which has to be an element.
    pub fn append_child_at(&mut self, id: u128, child: VNode)
        requires
            find(old(self)@, id) matches Some(target) && target is Element,
        ensures
            final(self)@ == appended(old(self)@, id, child@),
        decreases *old(self),
    {
        let ghost given = child@;
        match self {
            VNode::Element(el) => {
                let ghost orig = el.children@;
                let ghost models = nodes_view(orig);
                let ghost start = *el;
                assert(*old(self) == VNode::Element(start));
                if el.internal_id == id {
                    el.children.push(child);
                    assert(nodes_view(el.children@) =~= models.push(given));
                    return ;
                }
                let n = el.children.len();
                let mut i: usize = 0;
                proof {
                    lemma_holder(models, 0, id);
                    assert(holder(models, 0, id) < n);
                }
                while i < n && el.children[i].find_by_internal_id(id).is_none()
                    invariant
                        n == el.children@.len(),
                        el.children@ == orig,
                        models == nodes_view(orig),
                        *el == start,
                        i <= n,
                        holder(models, 0, id) == holder(models, i as int, id),
                        holder(models, 0, id) < n,
                    decreases n - i,
                {
                    assert(models[i as int] == orig[i as int]@);
                    i += 1;
                }
                proof {
                    lemma_holder(models, i as int, id);
                    assert(i < n);
                    assert(models[i as int] == orig[i as int]@);
                    assert(holder(models, i as int, id) == i);
                }
                el.children[i].append_child_at(id, child);
                proof {
                    assert(el.children@.len() == n);
                    assert(forall|j: int| 0 <= j < n && j != i ==> el.children@[j] == orig[j]);
                    assert(nodes_view(el.children@) =~= models.update(
                        i as int,
                        appended(models[i as int], id, given),
                    ));
                }
            },
            VNode::Text(_) => {
                assert(false);
            },
        }
    }
}

/// What a name is bound to by the last of the first `n` bindings that has it.
pub open spec fn bound<V>(entries: Seq<(String, V)>, key: Seq<char>, n: int) -> Option<V>
    decreases n,
{
    if n <= 0 || n > entries.len() {
        None
    } else if entries[n - 1].0@ == key {
        Some(entries[n - 1].1)
    } else {
        bound(entries, key, n - 1)
    }
}

/// Bindings of names; a later binding of a name hides an earlier one.
#[derive(Clone, Debug)]
pub struct NameMap<V> {
    pub entries: Vec<(String, V)>,
}

impl<V> NameMap<V> {
    /// What `key` is bound to.
    pub open spec fn lookup(&self, key: Seq<char>) -> Option<V> {
        bound(self.entries@, key, self.entries@.len() as int)
    }

    /// No bindings.
    pub fn new() -> (r: Self)
        ensures
            r.entries@.len() == 0,
    {
        NameMap { entries: Vec::new() }
    }

    /// Binds `key` to `value`.
    pub fn insert(&mut self, key: String, value: V)
        ensures
            final(self).entries@ == old(self).entries@.push((key, value)),
            final(self).lookup(key@) == Some(value),
    {
        self.entries.push((key, value));
    }

    /// What `key` is bound to.
    pub fn get(&self, key: &str) -> (r: Option<&V>)
        ensures
            match r {
                Some(v) => self.lookup(key@) == Some(*v),
                None => self.lookup(key@).is_none(),
            },
    {
        let n = self.entries.len();
        let mut i = n;
        while i > 0
            invariant
                n == self.entries@.len(),
                i <= n,
                self.lookup(key@) == bound(self.entries@, key@, i as int),
            decreases i,
        {
            if str_eq(self.entries[i - 1].0.as_str(), key) {
                return Some(&self.entries[i - 1].1);
            }
            i -= 1;
        }
        None
    }
}

/// Why a child could not be added to the document.
#[derive(Clone, Copy, Debug, PartialEq, Eq, Structural)]
pub enum DocumentError {
    /// No node has the given name.
    TargetIdNotFound,
    /// The named node is not in the tree.
    TargetNotFound,
    /// The named node is a text.
    TargetNotElement,
}

impl DocumentError {
    /// The error in words.
    pub fn message(&self) -> (r: &'static str)
        ensures
            r@ == self.words(),
    {
        match self {
            DocumentError::TargetIdNotFound => "target id not found",
            DocumentError::TargetNotFound => "target not found",
            DocumentError::TargetNotElement => "target is not an element",
        }
    }

    /// The words for each error.
    pub open spec fn words(&self) -> Seq<char> {
        match self {
            DocumentError::TargetIdNotFound => "target id not found"@,
            DocumentError::TargetNotFound => "target not found"@,
            DocumentError::TargetNotElement => "target is not an element"@,
        }
    }
}

/// The document: its tree, its templates by name, and the identities of its named elements.
#[derive(Clone, Debug)]
pub struct VDom {
    pub root: VNode,
    pub templates: NameMap<VNode>,
    pub id_map: NameMap<u128>,
}

impl VDom {
    /// Builds the document of a parsed page.
    pub fn new(document: &Markup) -> (r: Result<VDom, ParseError>)
        ensures
            match r {
                Ok(v) => document_error(document@).is_none() && describes(document@, v),
                Err(e) => document_error(document@) == Some(e),
            },
    {
        parse_html_to_vdom(document)
    }

    /// The element that the author gave the name `id`.
    pub fn find_element_by_id(&self, id: &str) -> (r: Option<&VNode>)
        ensures
            found_view(r) == match self.id_map.lookup(id@) {
                Some(identity) => find(self.root@, identity),
                None => None,
            },
    {
        match self.id_map.get(id) {
            Some(identity) => self.root.find_by_internal_id(*identity),
            None => None,
        }
    }

    /// The node with the stable identity `id`.
    pub fn find_element_by_internal_id(&self, id: u128) -> (r: Option<&VNode>)
        ensures
            found_view(r) == find(self.root@, id),
    {
        self.root.find_by_internal_id(id)
    }

    /// A copy of the template `template_id` in which every node has a new identity.
    pub fn create_element_from_template(&self, template_id: &str) -> (r: Option<VNode>)
        ensures
            match self.templates.lookup(template_id@) {
                Some(template) => r is Some && same_shape(r->Some_0@, template@),
                None => r is None,
            },
    {
        match self.templates.get(template_id) {
            Some(template) => {
                let mut copy = template.clone();
                copy.generate_new_ids();
                Some(copy)
            },
            None => None,
        }
    }

    /// Makes `child` the new last child of the element named `target_id`
    /// and returns the identity of `child`.
    pub fn add_element(&mut self, target_id: &str, child: VNode) -> (r: Result<u128, DocumentError>)
        ensures
            final(self).templates == old(self).templates,
            final(self).id_map == old(self).id_map,
            match old(self).id_map.lookup(target_id@) {
                None => r == Err::<u128, DocumentError>(DocumentError::TargetIdNotFound)
                    && final(self).root == old(self).root,
                Some(identity) => match find(old(self).root@, identity) {
                    None => r == Err::<u128, DocumentError>(DocumentError::TargetNotFound)
                        && final(self).root == old(self).root,
                    Some(target) => if target is Element {
                        r == Ok::<u128, DocumentError>(child@.id()) && final(self).root@
                            == appended(old(self).root@, identity, child@)
                    } else {
                        r == Err::<u128, DocumentError>(DocumentError::TargetNotElement)
                            && final(self).root == old(self).root
                    },
                },
            },
    {
        let identity = match self.id_map.get(target_id) {
            Some(identity) => *identity,
            None => {
                return Err(DocumentError::TargetIdNotFound);
            },
        };
        match self.root.find_by_internal_id(identity) {
            Some(VNode::Element(_)) => {},
            Some(VNode::Text(_)) => {
                return Err(DocumentError::TargetNotElement);
            },
            None => {
                return Err(DocumentError::TargetNotFound);
            },
        }
        let child_id = child.get_internal_id();
        self.root.append_child_at(identity, child);
        Ok(child_id)
    }
}

} // verus!
