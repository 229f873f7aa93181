//! Stable identities: one fresh number for every node that is created.
use vstd::prelude::*;
use crate::vdom::{NodeModel, VNode, nodes_view};

verus! {

/// A new identity, from `Ulid::new`.
///
/// Trusted, and nothing is claimed of the number: it is made of the time
/// and of random bits.
#[verifier::external_body]
pub(crate) fn fresh_identity() -> u128 {
    ulid::Ulid::new().0
}

/// The number of nodes of a tree.
pub open spec fn size(node: NodeModel) -> int
    decreases node, 0int,
{
    match node {
        NodeModel::Element { children, .. } => 1 + sizes(children, children.len() as int),
        NodeModel::Text { .. } => 1,
    }
}

/// The number of nodes of the first `n` trees of `nodes`.
pub open spec fn sizes(nodes: Seq<NodeModel>, n: int) -> int
    decreases nodes, n,
{
    if n <= 0 || n > nodes.len() {
        0
    } else {
        sizes(nodes, n - 1) + size(nodes[n - 1])
    }
}

/// `node` with the identities that `ids` holds from `next` on, handed out
/// to the node first and then to its children from left to right.
pub open spec fn relabeled(node: NodeModel, ids: Seq<u128>, next: int) -> NodeModel
    decreases node, 0int,
{
    match node {
        NodeModel::Element { identity, name, tag, attrs, style, children } => NodeModel::Element {
            identity: ids[next],
            name,
            tag,
            attrs,
            style,
            children: Seq::new(
                children.len(),
                |i: int|
                    if 0 <= i < children.len() {
                        relabeled(children[i], ids, next + 1 + sizes(children, i))
                    } else {
                        arbitrary()
                    },
            ),
        },
        NodeModel::Text { identity, name, attrs, style, template, rendered } => NodeModel::Text {
            identity: ids[next],
            name,
            attrs,
            style,
            template,
            rendered,
        },
    }
}

/// The two trees differ in identities at most.
pub open spec fn same_shape(a: NodeModel, b: NodeModel) -> bool
    decreases a,
{
    match (a, b) {
        (
            NodeModel::Element { name, tag, attrs, style, children, .. },
            NodeModel::Element {
                name: name2,
                tag: tag2,
                attrs: attrs2,
                style: style2,
                children: children2,
                ..
            },
        ) => {
            &&& name == name2
            &&& tag == tag2
            &&& attrs == attrs2
            &&& style == style2
            &&& children.len() == children2.len()
            &&& forall|i: int|
                0 <= i < children.len() ==> same_shape(#[trigger] children[i], children2[i])
        },
        (
            NodeModel::Text { name, attrs, style, template, rendered, .. },
            NodeModel::Text {
                name: name2,
                attrs: attrs2,
                style: style2,
                template: template2,
                rendered: rendered2,
                ..
            },
        ) => {
            &&& name == name2
            &&& attrs == attrs2
            &&& style == style2
            &&& template == template2
            &&& rendered == rendered2
        },
        _ => false,
    }
}

/// A tree has at least one node.
pub proof fn lemma_size_positive(node: NodeModel)
    ensures
        size(node) >= 1,
    decreases node, 0int,
{
    match node {
        NodeModel::Element { children, .. } => {
            lemma_sizes_nonnegative(children, children.len() as int);
        },
        NodeModel::Text { .. } => {},
    }
}

/// A list of trees has no negative number of nodes.
pub proof fn lemma_sizes_nonnegative(nodes: Seq<NodeModel>, n: int)
    ensures
        sizes(nodes, n) >= 0,
    decreases nodes, n,
{
    if 0 < n <= nodes.len() {
        lemma_sizes_nonnegative(nodes, n - 1);
        lemma_size_positive(nodes[n - 1]);
    }
}

/// Handing out new identities changes identities only.
pub proof fn lemma_relabeled_shape(node: NodeModel, ids: Seq<u128>, next: int)
    ensures
        same_shape(relabeled(node, ids, next), node),
    decreases node,
{
    match node {
        NodeModel::Element { children, .. } => {
            let after = relabeled(node, ids, next);
            let kids = after.kids();
            assert(kids.len() == children.len());
            assert forall|i: int| 0 <= i < kids.len() implies same_shape(
                #[trigger] kids[i],
                children[i],
            ) by {
                lemma_relabeled_shape(children[i], ids, next + 1 + sizes(children, i));
            }
            assert(after is Element);
        },
        NodeModel::Text { .. } => {},
    }
}

impl VNode {
    /// Gives the node the identity that `ids` holds at `next`, and the
    /// nodes below it those that follow, from left to right. Returns the
    /// position after the last identity that it handed out.
    pub fn relabel(&mut self, ids: &Vec<u128>, next: usize) -> (end: usize)
        requires
            next + size(old(self)@) <= ids@.len(),
        ensures
            final(self)@ == relabeled(old(self)@, ids@, next as int),
            end == next + size(old(self)@),
        decreases *old(self),
    {
        proof {
            lemma_size_positive(old(self)@);
        }
        let cap = ids.len();
        assert(next < cap);
        match self {
            VNode::Element(el) => {
                let ghost orig = el.children@;
                let ghost models = nodes_view(orig);
                let ghost start = *el;
                assert(*old(self) == VNode::Element(start));
                el.internal_id = ids[next];
                let n = el.children.len();
                let mut i: usize = 0;
                let mut at: usize = next + 1;
                proof {
                    lemma_sizes_nonnegative(models, n as int);
                }
                while i < n
                    invariant
                        n == el.children@.len(),
                        n == orig.len(),
                        models == nodes_view(orig),
                        i <= n,
                        decreases_to!(*old(self) => orig),
                        forall|j: int| i <= j < n ==> el.children@[j] == orig[j],
                        forall|j: int|
                            0 <= j < i ==> (#[trigger] el.children@[j])@ == relabeled(
                                models[j],
                                ids@,
                                next + 1 + sizes(models, j),
                            ),
                        at == next + 1 + sizes(models, i as int),
                        next + 1 + sizes(models, n as int) <= ids@.len(),
                        el.internal_id == ids@[next as int],
                        el.id == start.id,
                        el.tag == start.tag,
                        el.attrs == start.attrs,
                        el.style == start.style,
                    decreases n - i,
                {
                    proof {
                        lemma_sizes_grow(models, i as int + 1, n as int);
                        assert(models[i as int] == orig[i as int]@);
                    }
                    at = el.children[i].relabel(ids, at);
                    i += 1;
                }
                proof {
                    let wanted = relabeled(old(self)@, ids@, next as int);
                    assert(old(self)@.kids() == models);
                    assert(wanted.kids() =~= nodes_view(el.children@));
                }
                at
            },
            VNode::Text(t) => {
                t.internal_id = ids[next];
                next + 1
            },
        }
    }

    /// Adds one new identity to `ids` for every node of the tree.
    pub fn draw_identities(&self, ids: &mut Vec<u128>)
        ensures
            final(ids)@.len() == old(ids)@.len() + size(self@),
        decreases self,
    {
        ids.push(fresh_identity());
        match self {
            VNode::Element(el) => {
                let ghost models = nodes_view(el.children@);
                let n = el.children.len();
                let mut i: usize = 0;
                while i < n
                    invariant
                        n == el.children@.len(),
                        models == nodes_view(el.children@),
                        i <= n,
                        decreases_to!(self => el.children),
                        ids@.len() == old(ids)@.len() + 1 + sizes(models, i as int),
                    decreases n - i,
                {
                    assert(models[i as int] == el.children@[i as int]@);
                    el.children[i].draw_identities(ids);
                    i += 1;
                }
            },
            VNode::Text(_) => {},
        }
    }

    /// Gives every node of the tree a new identity. Nothing else changes.
    pub fn generate_new_ids(&mut self)
        ensures
            same_shape(final(self)@, old(self)@),
    {
        let mut ids: Vec<u128> = Vec::new();
        self.draw_identities(&mut ids);
        proof {
            lemma_relabeled_shape(self@, ids@, 0);
        }
        let _ = self.relabel(&ids, 0);
    }
}

/// The first `n` trees of a list have no more nodes than the first `m`, for `n` up to `m`.
pub proof fn lemma_sizes_grow(nodes: Seq<NodeModel>, n: int, m: int)
    requires
        0 <= n <= m <= nodes.len(),
    ensures
        sizes(nodes, n) <= sizes(nodes, m),
    decreases m - n,
{
    if n < m {
        lemma_sizes_grow(nodes, n, m - 1);
        lemma_size_positive(nodes[m - 1]);
    }
}

} // verus!
