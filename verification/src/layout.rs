//! The layout synchronizer: one layout node for every live document node,
//! found again by the node's stable identity.
use std::collections::HashMap;
use vstd::prelude::*;
use vstd::std_specs::hash::*;
use crate::diff::diff_vnode;
use crate::engine::{
    NodeContext, adopted, layout_children, layout_parents, tree_add_child, tree_children,
    tree_insert_child, tree_new, tree_new_leaf, tree_new_with_children, tree_parent, tree_remove,
    tree_replace_child, without,
};
use crate::forest::{is_forest, is_index, lemma_forest_without, lemma_rooted, purged};
use crate::parser::styles_of;
use crate::patch::{
    Change, DiffOp, PatchModel, changes_view, child_ops, diff_spec, longer, ops_view,
};
use crate::styles::{Style, style_of};
use crate::sync::{
    aims, child_step, kept, lemma_child_ops_prefix, lemma_composite_diff, lemma_next_op,
    lemma_is_diff, lemma_next_step, lemma_targets_agree, next_op, settled,
};
use crate::text::str_eq;
use crate::vdom::{NodeModel, VNode, any_has_id, nodes_view};

verus! {

/// Why the layout tree could not follow a patch.
#[derive(Clone, Copy, Debug, PartialEq, Eq, Structural)]
pub enum LayoutError {
    /// The identity index has no entry for a node that the patch addresses:
    /// the document tree and the layout tree have come apart.
    Desynchronized,
    /// The patch addresses a child position that is not there.
    ChildIndexOutOfBounds,
}

/// The layout tree together with the index from stable identities to layout handles.
pub struct LayoutMapping {
    /// The layout engine's tree.
    pub taffy: taffy::TaffyTree<NodeContext>,
    /// The layout handle of every registered document node, by stable identity.
    pub id_map: HashMap<u128, u64>,
    /// The handles whose style the engine has yet to be given, each with that style.
    pub restyle: Vec<(u64, Style)>,
    /// For every live layout node a number above that of its parent.
    pub depth: Ghost<Map<u64, nat>>,
}

impl LayoutMapping {
    /// The child list of every live layout node.
    pub open spec fn children(&self) -> Map<u64, Seq<u64>> {
        layout_children(self.taffy)
    }

    /// The parent of every live layout node.
    pub open spec fn parents(&self) -> Map<u64, Option<u64>> {
        layout_parents(self.taffy)
    }

    /// The identity index.
    pub open spec fn index(&self) -> Map<u128, u64> {
        self.id_map@
    }

    /// Whether `h` is the handle of a live layout node.
    pub open spec fn live(&self, h: u64) -> bool {
        self.children().contains_key(h)
    }

    /// The depth of every live layout node.
    pub open spec fn depths(&self) -> Map<u64, nat> {
        self.depth@
    }

    /// The layout tree is a forest and the index leads into it.
    pub open spec fn wf(&self) -> bool {
        &&& is_forest(self.children(), self.parents(), self.depths())
        &&& is_index(self.index(), self.children())
    }

    /// An empty layout tree with an empty index.
    pub fn new() -> (r: Self)
        ensures
            r.wf(),
            r.index() == Map::<u128, u64>::empty(),
            forall|h: u64| !r.live(h),
            r.restyle@.len() == 0,
    {
        let taffy = tree_new();
        let r = LayoutMapping {
            taffy,
            id_map: HashMap::new(),
            restyle: Vec::new(),
            depth: Ghost(Map::empty()),
        };
        assert forall|h: u64| !r.live(h) by {
            assert(!r.children().dom().contains(h));
        }
        assert forall|h: u64| !r.parents().contains_key(h) by {
            assert(!r.parents().dom().contains(h));
        }
        r
    }
}

impl LayoutMapping {
    /// Every layout node that was live in `before` is live in `self`, with
    /// the same children, parent and depth.
    pub open spec fn extends(&self, before: LayoutMapping) -> bool {
        forall|x: u64| #[trigger]
            before.live(x) ==> self.live(x) && self.children()[x] == before.children()[x]
                && self.parents()[x] == before.parents()[x] && self.depths()[x]
                == before.depths()[x]
    }

    /// The index of `self` is that of `before` outside the identities of
    /// `node`, and has each identity of `node` with a layout node that was
    /// not live in `before`.
    pub open spec fn registers(&self, before: LayoutMapping, node: NodeModel) -> bool {
        &&& forall|id: u128|
            !node.has_id(id) ==> (#[trigger] self.index().contains_key(id))
                == before.index().contains_key(id) && (before.index().contains_key(id)
                ==> self.index()[id] == before.index()[id])
        &&& forall|id: u128| #[trigger]
            node.has_id(id) ==> self.index().contains_key(id) && !before.live(self.index()[id])
    }

    /// The styles that wait for the engine are those of `before` and some more.
    pub open spec fn queued_after(&self, before: LayoutMapping) -> bool {
        &&& before.restyle@.len() <= self.restyle@.len()
        &&& forall|i: int|
            0 <= i < before.restyle@.len() ==> #[trigger] self.restyle@[i] == before.restyle@[i]
    }

    /// The layout tree has the shape of `node`: the layout node of every
    /// node of the tree has the layout nodes of its children as its
    /// children, in the same order.
    pub open spec fn mirrors(&self, node: NodeModel) -> bool
        decreases node,
    {
        &&& self.index().contains_key(node.id())
        &&& self.live(self.index()[node.id()])
        &&& match node {
            NodeModel::Element { identity, children, .. } => {
                &&& self.children()[self.index()[identity]].len() == children.len()
                &&& forall|i: int|
                    0 <= i < children.len() ==> self.index().contains_key(
                        (#[trigger] children[i]).id(),
                    ) && self.children()[self.index()[identity]][i] == self.index()[children[i].id()]
                        && self.mirrors(children[i])
            },
            NodeModel::Text { identity, .. } => self.children()[self.index()[identity]].len() == 0,
        }
    }

    /// A layout tree that keeps the index entries of `node` and the child
    /// lists that they lead to keeps the shape of `node`.
    pub proof fn lemma_mirrors_kept(&self, before: LayoutMapping, node: NodeModel)
        requires
            before.mirrors(node),
            forall|id: u128| #[trigger]
                node.has_id(id) && before.index().contains_key(id) ==> self.index().contains_key(id)
                    && self.index()[id] == before.index()[id] && self.live(self.index()[id])
                    && self.children()[self.index()[id]] == before.children()[before.index()[id]],
        ensures
            self.mirrors(node),
        decreases node,
    {
        assert(node.has_id(node.id()));
        match node {
            NodeModel::Element { identity, children, .. } => {
                assert forall|i: int| 0 <= i < children.len() implies self.index().contains_key(
                    (#[trigger] children[i]).id(),
                ) && self.children()[self.index()[identity]][i] == self.index()[children[i].id()]
                    && self.mirrors(children[i]) by {
                    let c = children[i];
                    assert(c.has_id(c.id()));
                    assert(node.has_id(c.id()));
                    assert forall|id: u128| #[trigger]
                        c.has_id(id) && before.index().contains_key(id) implies self.index().contains_key(
                        id,
                    ) && self.index()[id] == before.index()[id] && self.live(self.index()[id])
                        && self.children()[self.index()[id]] == before.children()[before.index()[id]] by {
                        assert(node.has_id(id));
                    }
                    self.lemma_mirrors_kept(before, c);
                }
            },
            NodeModel::Text { .. } => {},
        }
    }

    /// Builds the layout subtree of `vnode`: its root lies at depth `base`.
    fn build(&mut self, vnode: &VNode, Ghost(base): Ghost<nat>) -> (h: u64)
        requires
            old(self).wf(),
        ensures
            final(self).wf(),
            !old(self).live(h),
            final(self).live(h),
            final(self).parents()[h] is None,
            final(self).depths()[h] == base,
            final(self).extends(*old(self)),
            final(self).registers(*old(self), vnode@),
            final(self).index()[vnode@.id()] == h,
            final(self).queued_after(*old(self)),
            final(self).restyle@.len() > 0,
            final(self).restyle@.last() == (h, vnode@.node_style()),
            vnode@.distinct_ids() ==> final(self).mirrors(vnode@),
            vnode@.distinct_ids() ==> final(self).restyle@ == old(self).restyle@ + queued(
                final(self).index(),
                vnode@,
            ),
        decreases vnode,
    {
        broadcast use group_hash_axioms;

        let ghost before = *self;
        match vnode {
            VNode::Element(element) => {
                let ghost models = nodes_view(element.children@);
                let mut kids: Vec<u64> = Vec::new();
                let n = element.children.len();
                let mut i: usize = 0;
                while i < n
                    invariant
                        self.wf(),
                        before.wf(),
                        decreases_to!(vnode => element.children),
                        models == nodes_view(element.children@),
                        vnode@.kids() == models,
                        n == element.children@.len(),
                        i <= n,
                        kids@.len() == i,
                        forall|j: int|
                            0 <= j < i ==> self.live(#[trigger] kids@[j]) && !before.live(kids@[j])
                                && self.parents()[kids@[j]] is None && self.depths()[kids@[j]]
                                == base + 1,
                        forall|j: int, k: int| 0 <= j < k < i ==> kids@[j] != kids@[k],
                        self.extends(before),
                        forall|id: u128|
                            !any_has_id(models, i as int, id) ==> (
                            #[trigger] self.index().contains_key(id))
                                == before.index().contains_key(id) && (
                            before.index().contains_key(id) ==> self.index()[id]
                                == before.index()[id]),
                        forall|id: u128| #[trigger]
                            any_has_id(models, i as int, id) ==> self.index().contains_key(id)
                                && !before.live(self.index()[id]),
                        self.queued_after(before),
                        vnode@.distinct_ids() ==> forall|j: int|
                            0 <= j < i ==> self.mirrors(#[trigger] models[j])
                                && self.index()[models[j].id()] == kids@[j],
                        vnode@.distinct_ids() ==> self.restyle@ == before.restyle@ + queued_among(
                            self.index(),
                            models,
                            i as int,
                        ),
                    decreases n - i,
                {
                    let ghost mid = *self;
                    let ghost child = models[i as int];
                    let k = self.build(&element.children[i], Ghost((base + 1) as nat));
                    kids.push(k);
                    proof {
                        assert(child == element.children@[i as int]@);
                        assert(vnode@.kids() == models);
                        assert(child.has_id(child.id()));
                        if vnode@.distinct_ids() {
                            assert(child.distinct_ids());
                            assert forall|w: int, id: u128|
                                0 <= w < i && (#[trigger] models[w]).has_id(
                                    id,
                                ) implies #[trigger] mid.index()[id] == self.index()[id] by {
                                assert(!(models[w].has_id(id) && models[i as int].has_id(id)));
                                assert(any_has_id(models, i as int, id));
                                assert(self.index().contains_key(id) == mid.index().contains_key(
                                    id,
                                ));
                            }
                            lemma_queued_among_same(mid.index(), self.index(), models, i as int);
                            assert(self.restyle@ =~= before.restyle@ + queued_among(
                                self.index(),
                                models,
                                i + 1,
                            )) by {
                                assert(self.restyle@ == mid.restyle@ + queued(self.index(), child));
                                assert(mid.restyle@ == before.restyle@ + queued_among(
                                    mid.index(),
                                    models,
                                    i as int,
                                ));
                            }
                            assert forall|j: int| 0 <= j < i + 1 implies self.mirrors(
                                #[trigger] models[j],
                            ) && self.index()[models[j].id()] == kids@[j] by {
                                if j < i {
                                    let m = models[j];
                                    assert(mid.mirrors(m));
                                    assert forall|id: u128| #[trigger]
                                        m.has_id(id) && mid.index().contains_key(
                                            id,
                                        ) implies self.index().contains_key(id) && self.index()[id]
                                        == mid.index()[id] && self.live(self.index()[id])
                                        && self.children()[self.index()[id]]
                                        == mid.children()[mid.index()[id]] by {
                                        assert(!(models[j].has_id(id) && models[i as int].has_id(
                                            id,
                                        )));
                                        assert(mid.live(mid.index()[id]));
                                    }
                                    self.lemma_mirrors_kept(mid, m);
                                    assert(m.has_id(m.id()));
                                    assert(!(models[j].has_id(m.id()) && models[i as int].has_id(
                                        m.id(),
                                    )));
                                } else {
                                    assert(child.distinct_ids());
                                }
                            }
                        }
                        assert forall|j: int| 0 <= j < i + 1 implies self.live(#[trigger] kids@[j])
                            && !before.live(kids@[j]) && self.parents()[kids@[j]] is None
                            && self.depths()[kids@[j]] == base + 1 by {
                            if j < i {
                                assert(mid.live(kids@[j]));
                            } else {
                                if before.live(k) {
                                    assert(mid.live(k));
                                }
                            }
                        }
                        assert forall|j: int, l: int| 0 <= j < l < i + 1 implies kids@[j]
                            != kids@[l] by {
                            assert(mid.live(kids@[j]));
                        }
                        assert forall|x: u64| #[trigger] before.live(x) implies self.live(x)
                            && self.children()[x] == before.children()[x] && self.parents()[x]
                            == before.parents()[x] && self.depths()[x] == before.depths()[x] by {
                            assert(mid.live(x));
                        }
                        assert forall|id: u128| !any_has_id(models, i + 1, id) implies (
                        #[trigger] self.index().contains_key(id)) == before.index().contains_key(
                            id,
                        ) && (before.index().contains_key(id) ==> self.index()[id]
                            == before.index()[id]) by {
                            assert(!child.has_id(id));
                            if any_has_id(models, i as int, id) {
                                let w = choose|w: int|
                                    0 <= w < i && w < models.len() && (#[trigger] models[w]).has_id(
                                        id,
                                    );
                                assert(any_has_id(models, i + 1, id));
                            }
                            assert(self.index().contains_key(id) == mid.index().contains_key(id));
                        }
                        assert forall|id: u128| #[trigger]
                            any_has_id(models, i + 1, id) implies self.index().contains_key(id)
                            && !before.live(self.index()[id]) by {
                            if child.has_id(id) {
                                assert(self.index().contains_key(id));
                                if before.live(self.index()[id]) {
                                    assert(mid.live(self.index()[id]));
                                }
                            } else {
                                let w = choose|w: int|
                                    0 <= w < i + 1 && w < models.len() && (
                                    #[trigger] models[w]).has_id(id);
                                assert(w < i);
                                assert(any_has_id(models, i as int, id));
                                assert(self.index().contains_key(id) == mid.index().contains_key(
                                    id,
                                ));
                            }
                        }
                    }
                    i += 1;
                }
                let ghost mid = *self;
                let h = match tree_new_with_children(&mut self.taffy, &kids) {
                    Ok(h) => h,
                    Err(_) => vstd::pervasive::unreached(),
                };
                self.depth = Ghost(self.depth@.insert(h, base));
                let _ = self.id_map.insert(element.internal_id, h);
                self.restyle.push((h, element.style));
                proof {
                    let ch = mid.children();
                    let par = mid.parents();
                    assert(self.children() == ch.insert(h, kids@));
                    assert(self.parents() == adopted(par, kids@, h));
                    assert(!mid.parents().contains_key(h));
                    assert forall|x: u64| kids@.contains(x) implies mid.live(x) && par[x] is None
                        && mid.depths()[x] == base + 1 by {
                        let j = choose|j: int| 0 <= j < kids@.len() && kids@[j] == x;
                        assert(mid.live(kids@[j]));
                    }
                    assert forall|p: u64, j: int|
                        self.children().contains_key(p) && 0 <= j < self.children()[p].len()
                        implies self.parents().contains_key(#[trigger] self.children()[p][j])
                        && self.parents()[self.children()[p][j]] == Some(p) by {
                        if p == h {
                            assert(kids@.contains(kids@[j]));
                        } else {
                            let c = ch[p][j];
                            assert(par[c] == Some(p));
                            assert(!kids@.contains(c));
                        }
                    }
                    assert forall|x: u64|
                        self.parents().contains_key(x) && (#[trigger] self.parents()[x])
                            is Some implies self.children().contains_key(self.parents()[x]->0)
                        && self.children()[self.parents()[x]->0].contains(x)
                            && self.depths()[self.parents()[x]->0]
                        < self.depths()[x] by {
                        if kids@.contains(x) {
                        } else {
                            assert(par[x] is Some);
                        }
                    }
                    assert(is_forest(self.children(), self.parents(), self.depths()));
                    assert(is_index(self.index(), self.children()));
                    assert(vnode@.id() == element.internal_id);
                    assert forall|id: u128| !vnode@.has_id(id) implies (
                    #[trigger] self.index().contains_key(id)) == before.index().contains_key(id)
                        && (before.index().contains_key(id) ==> self.index()[id]
                        == before.index()[id]) by {
                        if any_has_id(models, n as int, id) {
                            let w = choose|w: int|
                                0 <= w < n && w < models.len() && (#[trigger] models[w]).has_id(id);
                            assert(vnode@.kids() == models);
                            assert(vnode@.has_id(id));
                        }
                        assert(mid.index().contains_key(id) == before.index().contains_key(id));
                    }
                    assert forall|id: u128| #[trigger] vnode@.has_id(id) implies self.index().contains_key(
                        id,
                    ) && !before.live(self.index()[id]) by {
                        if id != element.internal_id {
                            assert(any_has_id(models, n as int, id));
                        } else {
                            if before.live(h) {
                                assert(mid.live(h));
                            }
                        }
                    }
                    assert forall|x: u64| #[trigger] before.live(x) implies self.live(x)
                        && self.children()[x] == before.children()[x] && self.parents()[x]
                        == before.parents()[x] && self.depths()[x] == before.depths()[x] by {
                        assert(mid.live(x));
                        assert(!kids@.contains(x));
                    }
                    if before.live(h) {
                        assert(mid.live(h));
                    }
                    if vnode@.distinct_ids() {
                        assert(vnode@.kids() == models);
                        assert forall|w: int, id: u128|
                            0 <= w < n && (#[trigger] models[w]).has_id(
                                id,
                            ) implies #[trigger] mid.index()[id] == self.index()[id] by {
                            assert(id != element.internal_id);
                        }
                        lemma_queued_among_same(mid.index(), self.index(), models, n as int);
                        assert(self.restyle@ =~= before.restyle@ + queued(self.index(), vnode@)) by {
                            assert(self.restyle@ == mid.restyle@.push((h, element.style)));
                            assert(mid.restyle@ == before.restyle@ + queued_among(
                                mid.index(),
                                models,
                                n as int,
                            ));
                            assert(self.index()[element.internal_id] == h);
                        }
                        assert forall|j: int| 0 <= j < models.len() implies self.index().contains_key(
                            (#[trigger] models[j]).id(),
                        ) && self.children()[h][j] == self.index()[models[j].id()] && self.mirrors(
                            models[j],
                        ) by {
                            let m = models[j];
                            assert(mid.mirrors(m));
                            assert(m.has_id(m.id()));
                            assert forall|id: u128| #[trigger]
                                m.has_id(id) && mid.index().contains_key(
                                    id,
                                ) implies self.index().contains_key(id) && self.index()[id]
                                == mid.index()[id] && self.live(self.index()[id])
                                && self.children()[self.index()[id]]
                                == mid.children()[mid.index()[id]] by {
                                assert(id != element.internal_id);
                                assert(mid.live(mid.index()[id]));
                            }
                            self.lemma_mirrors_kept(mid, m);
                        }
                        assert(self.mirrors(vnode@));
                    }
                }
                h
            },
            VNode::Text(text) => {
                let h = match tree_new_leaf(&mut self.taffy, vnode.get_node_context()) {
                    Ok(h) => h,
                    Err(_) => vstd::pervasive::unreached(),
                };
                self.depth = Ghost(self.depth@.insert(h, base));
                let _ = self.id_map.insert(text.internal_id, h);
                self.restyle.push((h, text.style));
                proof {
                    assert(!before.parents().contains_key(h));
                    assert forall|p: u64, j: int|
                        self.children().contains_key(p) && 0 <= j < self.children()[p].len()
                        implies self.parents().contains_key(#[trigger] self.children()[p][j])
                        && self.parents()[self.children()[p][j]] == Some(p) by {
                        let c = before.children()[p][j];
                        assert(before.parents()[c] == Some(p));
                    }
                    assert forall|x: u64|
                        self.parents().contains_key(x) && (#[trigger] self.parents()[x])
                            is Some implies self.children().contains_key(self.parents()[x]->0)
                        && self.children()[self.parents()[x]->0].contains(x)
                            && self.depths()[self.parents()[x]->0]
                        < self.depths()[x] by {
                        assert(before.parents()[x] is Some);
                    }
                    assert(is_forest(self.children(), self.parents(), self.depths()));
                    assert(is_index(self.index(), self.children()));
                    assert(self.restyle@ =~= before.restyle@ + queued(self.index(), vnode@));
                }
                h
            },
        }
    }
}

/// The styles that a change of attributes queues for the layout node `h`
/// of a node with the style `current`: for each of the first `n` changes
/// that gives the `style` attribute a value, the style that the value
/// resolves to, if it is another one than `current`.
pub open spec fn restyles(h: u64, current: Style, changes: Seq<Change>, n: int) -> Seq<(u64, Style)>
    decreases n,
{
    if n <= 0 {
        Seq::empty()
    } else {
        let rest = restyles(h, current, changes, n - 1);
        let c = changes[n - 1];
        if c.0 == "style"@ && c.2 is Some && style_of(styles_of(c.2->0)) != current {
            rest.push((h, style_of(styles_of(c.2->0))))
        } else {
            rest
        }
    }
}

/// The styles that building the layout subtree of `node` queues: that of
/// every node with its layout handle, children before their parent.
pub open spec fn queued(index: Map<u128, u64>, node: NodeModel) -> Seq<(u64, Style)>
    decreases node, 0int,
{
    match node {
        NodeModel::Element { identity, style, children, .. } => queued_among(
            index,
            children,
            children.len() as int,
        ).push((index[identity], style)),
        NodeModel::Text { identity, style, .. } => seq![(index[identity], style)],
    }
}

/// The styles that building the layout subtrees of the first `n` of `nodes` queues.
pub open spec fn queued_among(index: Map<u128, u64>, nodes: Seq<NodeModel>, n: int) -> Seq<
    (u64, Style),
>
    decreases nodes, n,
{
    if n <= 0 || n > nodes.len() {
        Seq::empty()
    } else {
        queued_among(index, nodes, n - 1) + queued(index, nodes[n - 1])
    }
}

/// What building a subtree queues depends on the index entries of its nodes alone.
pub proof fn lemma_queued_same(first: Map<u128, u64>, second: Map<u128, u64>, node: NodeModel)
    requires
        forall|id: u128| #[trigger] node.has_id(id) ==> first[id] == second[id],
    ensures
        queued(first, node) == queued(second, node),
    decreases node, 0int,
{
    assert(node.has_id(node.id()));
    match node {
        NodeModel::Element { children, .. } => {
            assert forall|k: int, id: u128|
                0 <= k < children.len() && (#[trigger] children[k]).has_id(
                    id,
                ) implies #[trigger] first[id] == second[id] by {
                assert(node.has_id(id));
            }
            lemma_queued_among_same(first, second, children, children.len() as int);
        },
        NodeModel::Text { .. } => {},
    }
}

/// What building the first `n` of `nodes` queues depends on the index entries of their nodes alone.
pub proof fn lemma_queued_among_same(
    first: Map<u128, u64>,
    second: Map<u128, u64>,
    nodes: Seq<NodeModel>,
    n: int,
)
    requires
        0 <= n <= nodes.len(),
        forall|k: int, id: u128|
            0 <= k < n && (#[trigger] nodes[k]).has_id(id) ==> #[trigger] first[id] == second[id],
    ensures
        queued_among(first, nodes, n) == queued_among(second, nodes, n),
    decreases nodes, n,
{
    if n > 0 {
        lemma_queued_among_same(first, second, nodes, n - 1);
        let child = nodes[n - 1];
        assert forall|id: u128| #[trigger] child.has_id(id) implies first[id] == second[id] by {
            assert(nodes[n - 1].has_id(id));
        }
        lemma_queued_same(first, second, child);
    }
}

/// The node that a patch works on: that of the child that it descends to, or `node` itself.
pub open spec fn scope(node: NodeModel, patch: PatchModel) -> NodeModel
    decreases patch,
{
    match patch {
        PatchModel::PatchChild(i, sub) => if node is Element && 0 <= i < node.kids().len() {
            scope(node.kids()[i], *sub)
        } else {
            node
        },
        _ => node,
    }
}

/// Whether `patch` is the diff from the node that it works on to `target`.
pub open spec fn is_diff(patch: PatchModel, node: NodeModel, target: NodeModel) -> bool
    decreases patch,
{
    match patch {
        PatchModel::PatchChild(i, sub) => node is Element && 0 <= i < node.kids().len() && is_diff(
            *sub,
            node.kids()[i],
            target,
        ),
        _ => crate::patch::diff_spec(node, target) == Some(patch),
    }
}

/// Whether `patch`, applied at `node`, discards the layout node of the identity `id`.
pub open spec fn discards(node: NodeModel, patch: PatchModel, id: u128) -> bool
    decreases patch,
{
    match patch {
        PatchModel::Replace(gone, _) => gone.has_id(id),
        PatchModel::RemoveChild(i) => node is Element && 0 <= i < node.kids().len()
            && node.kids()[i].has_id(id),
        PatchModel::PatchChild(i, sub) => node is Element && 0 <= i < node.kids().len()
            && discards(node.kids()[i], *sub, id),
        PatchModel::Composite(ops) => exists|k: int|
            0 <= k < ops.len() && discards(node, #[trigger] ops[k], id),
        _ => false,
    }
}

/// Whether `patch`, applied at `node`, builds a layout node for the identity `id`.
pub open spec fn creates(node: NodeModel, patch: PatchModel, id: u128) -> bool
    decreases patch,
{
    match patch {
        PatchModel::Replace(_, fresh) => fresh.has_id(id),
        PatchModel::AddChild(_, fresh) => fresh.has_id(id),
        PatchModel::PatchChild(i, sub) => node is Element && 0 <= i < node.kids().len()
            && creates(node.kids()[i], *sub, id),
        PatchModel::Composite(ops) => exists|k: int|
            0 <= k < ops.len() && creates(node, #[trigger] ops[k], id),
        _ => false,
    }
}

impl LayoutMapping {
    /// The index has the same entry for `id`, or none, as that of `before`.
    pub open spec fn same_entry(&self, before: LayoutMapping, id: u128) -> bool {
        self.index().contains_key(id) == before.index().contains_key(id) && (
        before.index().contains_key(id) ==> self.index()[id] == before.index()[id])
    }

    /// Whether `x` is the layout handle of a node of the tree `node`.
    pub open spec fn carries(&self, node: NodeModel, x: u64) -> bool {
        exists|id: u128|
            node.has_id(id) && self.index().contains_key(id) && #[trigger] self.index()[id] == x
    }

    /// The handles of `doomed` are live, differ from each other, and no
    /// index entry leads to one of them.
    pub open spec fn detached(&self, doomed: Seq<u64>) -> bool {
        &&& forall|j: int| 0 <= j < doomed.len() ==> self.live(#[trigger] doomed[j])
        &&& forall|j: int, k: int| 0 <= j < k < doomed.len() ==> doomed[j] != doomed[k]
        &&& forall|id: u128, j: int|
            self.index().contains_key(id) && 0 <= j < doomed.len() ==> #[trigger] self.index()[id]
                != #[trigger] doomed[j]
    }

    /// Builds the layout subtree of `vnode`, registers every node of it
    /// under its identity and, if a parent handle is given, attaches the
    /// subtree as the last child of that parent. Returns the handle of the
    /// subtree's root.
    pub fn build_tree(&mut self, vnode: &VNode, parent_node: Option<u64>) -> (h: u64)
        requires
            old(self).wf(),
            parent_node matches Some(p) ==> old(self).live(p),
        ensures
            final(self).wf(),
            !old(self).live(h),
            final(self).live(h),
            final(self).parents()[h] == parent_node,
            final(self).registers(*old(self), vnode@),
            final(self).index()[vnode@.id()] == h,
            final(self).queued_after(*old(self)),
            vnode@.distinct_ids() ==> final(self).mirrors(vnode@),
            vnode@.distinct_ids() ==> final(self).restyle@ == old(self).restyle@ + queued(
                final(self).index(),
                vnode@,
            ),
            forall|x: u64| #[trigger]
                old(self).live(x) ==> final(self).live(x) && final(self).parents()[x]
                    == old(self).parents()[x] && final(self).children()[x] == if parent_node
                        == Some(x) {
                    old(self).children()[x].push(h)
                } else {
                    old(self).children()[x]
                },
    {
        let ghost before = *self;
        let ghost base: nat = match parent_node {
            Some(p) => self.depth@[p] + 1,
            None => 0,
        };
        let h = self.build(vnode, Ghost(base));
        let ghost mid = *self;
        match parent_node {
            Some(p) => {
                proof {
                    assert(before.live(p));
                    let par2 = self.parents().insert(h, Some(p));
                    assert forall|x: u64|
                        par2.contains_key(x) && (#[trigger] par2[x]) is Some implies par2.contains_key(
                        par2[x]->0,
                    ) && self.depths()[par2[x]->0] < self.depths()[x] by {
                        if x != h {
                            assert(self.parents()[x] is Some);
                        }
                    }
                    lemma_rooted(par2, self.depths(), p);
                }
                match tree_add_child(&mut self.taffy, p, h) {
                    Ok(_) => {},
                    Err(_) => vstd::pervasive::unreached(),
                }
                proof {
                    assert(mid.children()[p].push(h) =~= mid.children()[p].insert(
                        mid.children()[p].len() as int,
                        h,
                    ));
                    self.lemma_attached(mid, p, h, mid.children()[p].push(h));
                    if vnode@.distinct_ids() {
                        assert forall|id: u128| #[trigger]
                            vnode@.has_id(id) && mid.index().contains_key(
                                id,
                            ) implies self.index().contains_key(id) && self.index()[id]
                            == mid.index()[id] && self.live(self.index()[id])
                            && self.children()[self.index()[id]]
                            == mid.children()[mid.index()[id]] by {
                            assert(!before.live(mid.index()[id]));
                        }
                        self.lemma_mirrors_kept(mid, vnode@);
                    }
                }
            },
            None => {},
        }
        h
    }

    /// Whether every node of the tree of `vnode` is registered.
    pub fn registered(&self, vnode: &VNode) -> (r: bool)
        ensures
            r == forall|id: u128| vnode@.has_id(id) ==> self.index().contains_key(id),
        decreases vnode,
    {
        broadcast use group_hash_axioms;

        match vnode {
            VNode::Element(element) => {
                if !self.id_map.contains_key(&element.internal_id) {
                    assert(vnode@.has_id(element.internal_id));
                    return false;
                }
                let ghost models = nodes_view(element.children@);
                let n = element.children.len();
                let mut i: usize = 0;
                while i < n
                    invariant
                        decreases_to!(vnode => element.children),
                        models == nodes_view(element.children@),
                        vnode@.kids() == models,
                        vnode@ is Element,
                        n == element.children@.len(),
                        i <= n,
                        forall|id: u128|
                            any_has_id(models, i as int, id) ==> self.index().contains_key(id),
                    decreases n - i,
                {
                    if !self.registered(&element.children[i]) {
                        proof {
                            let child = models[i as int];
                            assert(child == element.children@[i as int]@);
                            let id = choose|id: u128|
                                child.has_id(id) && !self.index().contains_key(id);
                            assert(vnode@.kids()[i as int].has_id(id));
                            assert(vnode@.has_id(id));
                        }
                        return false;
                    }
                    proof {
                        assert forall|id: u128|
                            any_has_id(models, i + 1, id) implies self.index().contains_key(id) by {
                            let w = choose|w: int|
                                0 <= w < i + 1 && w < models.len() && (#[trigger] models[w]).has_id(
                                    id,
                                );
                            if w < i {
                                assert(any_has_id(models, i as int, id));
                            }
                        }
                    }
                    i += 1;
                }
                proof {
                    assert forall|id: u128| vnode@.has_id(id) implies self.index().contains_key(
                        id,
                    ) by {
                        if id != element.internal_id {
                            assert(any_has_id(models, n as int, id));
                        }
                    }
                }
                true
            },
            VNode::Text(text) => {
                let r = self.id_map.contains_key(&text.internal_id);
                assert(vnode@.has_id(text.internal_id));
                r
            },
        }
    }
}

impl VNode {
    /// What the layout node of this node carries for measurement: a text
    /// carries a copy of itself, an element nothing.
    pub fn get_node_context(&self) -> (r: NodeContext)
        ensures
            match r {
                NodeContext::Text(t) => self@ is Text && t@ == self@,
                NodeContext::Element => self@ is Element,
            },
    {
        match self {
            VNode::Element(_el) => NodeContext::Element,
            VNode::Text(text) => NodeContext::Text(text.clone()),
        }
    }
}

/// The position of `h` in `list`.
pub fn position_in(list: &Vec<u64>, h: u64) -> (r: Option<usize>)
    ensures
        match r {
            Some(i) => i < list@.len() && list@[i as int] == h,
            None => !list@.contains(h),
        },
{
    let n = list.len();
    let mut i: usize = 0;
    while i < n
        invariant
            n == list@.len(),
            i <= n,
            forall|j: int| 0 <= j < i ==> list@[j] != h,
        decreases n - i,
    {
        if list[i] == h {
            return Some(i);
        }
        i += 1;
    }
    None
}

impl LayoutMapping {
    /// What a patch that does not descend comes to on this layout tree: a
    /// replacement and a change of attributes need the addressed node in
    /// the index, an added child also a position up to the number of layout
    /// children, a removed child a position that the element has and the
    /// whole subtree in the index. A patch of a child that is not there does
    /// nothing, and neither does an empty composite.
    pub open spec fn leaf_outcome(&self, node: NodeModel, patch: PatchModel) -> Option<
        Result<(), LayoutError>,
    > {
        match patch {
            PatchModel::Replace(gone, _) => Some(
                if self.index().contains_key(gone.id()) {
                    Ok(())
                } else {
                    Err(LayoutError::Desynchronized)
                },
            ),
            PatchModel::ChangeAttributes { .. } => Some(
                if self.index().contains_key(node.id()) {
                    Ok(())
                } else {
                    Err(LayoutError::Desynchronized)
                },
            ),
            PatchModel::AddChild(i, _) => Some(
                if !self.index().contains_key(node.id()) {
                    Err(LayoutError::Desynchronized)
                } else if i > self.children()[self.index()[node.id()]].len() {
                    Err(LayoutError::ChildIndexOutOfBounds)
                } else {
                    Ok(())
                },
            ),
            PatchModel::RemoveChild(i) => Some(
                if !(node is Element && 0 <= i < node.kids().len()) {
                    Err(LayoutError::ChildIndexOutOfBounds)
                } else if !(forall|id: u128|
                    node.kids()[i].has_id(id) ==> self.index().contains_key(id)) {
                    Err(LayoutError::Desynchronized)
                } else {
                    Ok(())
                },
            ),
            PatchModel::PatchChild(i, _) => if node is Element && 0 <= i < node.kids().len() {
                None
            } else {
                Some(Ok(()))
            },
            PatchModel::Composite(ops) => if ops.len() == 0 {
                Some(Ok(()))
            } else {
                None
            },
        }
    }

    /// What a patch that does not descend has queued: a change of
    /// attributes the styles that it leads to, a replacement and an added
    /// child the styles of the subtree that was built, where no identity
    /// occurs twice in it, and a removed child nothing.
    pub open spec fn leaf_queue(&self, before: LayoutMapping, node: NodeModel, patch: PatchModel) -> bool {
        match patch {
            PatchModel::ChangeAttributes { changes, .. } => self.restyle@ == before.restyle@
                + restyles(
                before.index()[node.id()],
                node.node_style(),
                changes,
                changes.len() as int,
            ),
            PatchModel::AddChild(_, added) => added.distinct_ids() ==> self.restyle@
                == before.restyle@ + queued(self.index(), added),
            PatchModel::Replace(_, fresh) => fresh.distinct_ids() ==> self.restyle@
                == before.restyle@ + queued(self.index(), fresh),
            PatchModel::RemoveChild(_) => self.restyle@ == before.restyle@,
            _ => true,
        }
    }

    /// Takes every node of the tree of `vnode` out of the index and adds
    /// the layout handles that it finds there to `doomed`.
    fn unregister(&mut self, vnode: &VNode, doomed: &mut Vec<u64>)
        requires
            old(self).wf(),
            old(self).detached(old(doomed)@),
        ensures
            final(self).wf(),
            final(self).detached(final(doomed)@),
            final(self).taffy == old(self).taffy,
            final(self).depth == old(self).depth,
            final(self).restyle == old(self).restyle,
            forall|id: u128| vnode@.has_id(id) ==> !final(self).index().contains_key(id),
            forall|id: u128| !vnode@.has_id(id) ==> final(self).same_entry(*old(self), id),
            forall|id: u128| #[trigger]
                final(self).index().contains_key(id) ==> final(self).same_entry(*old(self), id),
            old(doomed)@.len() <= final(doomed)@.len(),
            forall|j: int| 0 <= j < old(doomed)@.len() ==> final(doomed)@[j] == old(doomed)@[j],
            forall|j: int|
                old(doomed)@.len() <= j < final(doomed)@.len() ==> old(self).carries(
                    vnode@,
                    #[trigger] final(doomed)@[j],
                ),
            forall|id: u128|
                vnode@.has_id(id) && old(self).index().contains_key(id)
                    ==> final(doomed)@.contains(#[trigger] old(self).index()[id]),
        decreases vnode,
    {
        broadcast use group_hash_axioms;

        let ghost before = *self;
        let ghost given = doomed@;
        let id = vnode.get_internal_id();
        match self.id_map.remove(&id) {
            Some(h) => {
                doomed.push(h);
                assert(doomed@[doomed@.len() - 1] == before.index()[id]);
            },
            None => {},
        }
        assert(vnode@.has_id(id));
        match vnode {
            VNode::Element(element) => {
                let ghost models = nodes_view(element.children@);
                let n = element.children.len();
                let mut i: usize = 0;
                while i < n
                    invariant
                        decreases_to!(vnode => element.children),
                        models == nodes_view(element.children@),
                        vnode@.kids() == models,
                        vnode@ is Element,
                        vnode@.id() == id,
                        n == element.children@.len(),
                        i <= n,
                        self.wf(),
                        self.detached(doomed@),
                        self.taffy == before.taffy,
                        self.depth == before.depth,
                        self.restyle == before.restyle,
                        !self.index().contains_key(id),
                        forall|x: u128|
                            any_has_id(models, i as int, x) ==> !self.index().contains_key(x),
                        forall|x: u128| !vnode@.has_id(x) ==> self.same_entry(before, x),
                        forall|x: u128| #[trigger]
                            self.index().contains_key(x) ==> self.same_entry(before, x),
                        given.len() <= doomed@.len(),
                        forall|j: int| 0 <= j < given.len() ==> doomed@[j] == given[j],
                        forall|j: int|
                            given.len() <= j < doomed@.len() ==> before.carries(
                                vnode@,
                                #[trigger] doomed@[j],
                            ),
                        before.index().contains_key(id) ==> doomed@.contains(before.index()[id]),
                        forall|x: u128|
                            any_has_id(models, i as int, x) && before.index().contains_key(x)
                                ==> doomed@.contains(#[trigger] before.index()[x]),
                        forall|x: u128|
                            before.index().contains_key(x) && !(
                            #[trigger] self.index().contains_key(x)) ==> x == id || any_has_id(
                                models,
                                i as int,
                                x,
                            ),
                    decreases n - i,
                {
                    let ghost mid = *self;
                    let ghost so_far = doomed@;
                    self.unregister(&element.children[i], doomed);
                    proof {
                        let child = models[i as int];
                        assert(child == element.children@[i as int]@);
                        assert forall|x: u128| any_has_id(models, i + 1, x)
                            implies !self.index().contains_key(
                            x,
                        ) by {
                            let w = choose|w: int|
                                0 <= w < i + 1 && w < models.len() && (#[trigger] models[w]).has_id(
                                    x,
                                );
                            if w < i {
                                assert(any_has_id(models, i as int, x));
                                if self.index().contains_key(x) {
                                    assert(self.same_entry(mid, x));
                                }
                            }
                        }
                        assert forall|x: u128| !vnode@.has_id(x) implies self.same_entry(
                            before,
                            x,
                        ) by {
                            if child.has_id(x) {
                                assert(vnode@.kids()[i as int].has_id(x));
                            }
                            assert(self.same_entry(mid, x));
                            assert(mid.same_entry(before, x));
                        }
                        assert forall|x: u128| #[trigger]
                            self.index().contains_key(x) implies self.same_entry(before, x) by {
                            assert(self.same_entry(mid, x));
                            assert(mid.same_entry(before, x));
                        }
                        if self.index().contains_key(id) {
                            assert(self.same_entry(mid, id));
                        }
                        assert forall|j: int| given.len() <= j < doomed@.len() implies before.carries(
                            vnode@,
                            #[trigger] doomed@[j],
                        ) by {
                            if j >= so_far.len() {
                                let w = choose|w: u128|
                                    child.has_id(w) && mid.index().contains_key(w)
                                        && #[trigger] mid.index()[w] == doomed@[j];
                                assert(vnode@.kids()[i as int].has_id(w));
                                assert(vnode@.has_id(w));
                                assert(mid.same_entry(before, w));
                            } else {
                                assert(doomed@[j] == so_far[j]);
                            }
                        }
                        if before.index().contains_key(id) {
                            let w = choose|w: int|
                                0 <= w < so_far.len() && so_far[w] == before.index()[id];
                            assert(doomed@[w] == so_far[w]);
                        }
                        assert forall|x: u128|
                            any_has_id(models, i + 1, x) && before.index().contains_key(
                                x,
                            ) implies doomed@.contains(#[trigger] before.index()[x]) by {
                            if any_has_id(models, i as int, x) {
                                let w = choose|w: int|
                                    0 <= w < so_far.len() && so_far[w] == before.index()[x];
                                assert(doomed@[w] == so_far[w]);
                            } else {
                                assert(child.has_id(x));
                                if mid.index().contains_key(x) {
                                    assert(mid.same_entry(before, x));
                                } else {
                                    assert(x == id);
                                    let w = choose|w: int|
                                        0 <= w < so_far.len() && so_far[w] == before.index()[id];
                                    assert(doomed@[w] == so_far[w]);
                                }
                            }
                        }
                        assert forall|x: u128|
                            before.index().contains_key(x) && !(
                            #[trigger] self.index().contains_key(x)) implies x == id || any_has_id(
                            models,
                            i + 1,
                            x,
                        ) by {
                            if mid.index().contains_key(x) {
                                if !child.has_id(x) {
                                    assert(self.same_entry(mid, x));
                                }
                            } else if x != id {
                                let w = choose|w: int|
                                    0 <= w < i && w < models.len() && (#[trigger] models[w]).has_id(
                                        x,
                                    );
                                assert(any_has_id(models, i + 1, x));
                            }
                        }
                    }
                    i += 1;
                }
                proof {
                    assert forall|x: u128| vnode@.has_id(x) implies !self.index().contains_key(x) by {
                        if x != id {
                            assert(any_has_id(models, n as int, x));
                        }
                    }
                    assert forall|x: u128|
                        vnode@.has_id(x) && before.index().contains_key(
                            x,
                        ) implies doomed@.contains(#[trigger] before.index()[x]) by {
                        if x != id {
                            assert(any_has_id(models, n as int, x));
                        }
                    }
                }
            },
            VNode::Text(_) => {},
        }
    }

    /// Drops the layout nodes of `doomed` from the engine's tree.
    fn drop_nodes(&mut self, doomed: &Vec<u64>)
        requires
            old(self).wf(),
            old(self).detached(doomed@),
        ensures
            final(self).wf(),
            final(self).id_map == old(self).id_map,
            final(self).depth == old(self).depth,
            final(self).restyle == old(self).restyle,
            forall|x: u64| #[trigger]
                final(self).live(x) <==> old(self).live(x) && !doomed@.contains(x),
            forall|x: u64| #[trigger]
                final(self).live(x) ==> final(self).children()[x] == purged(
                    old(self).children()[x],
                    doomed@,
                    doomed@.len() as int,
                ),
    {
        let n = doomed.len();
        let mut i: usize = 0;
        while i < n
            invariant
                n == doomed@.len(),
                i <= n,
                self.wf(),
                old(self).detached(doomed@),
                self.id_map == old(self).id_map,
                self.depth == old(self).depth,
                self.restyle == old(self).restyle,
                forall|x: u64| #[trigger]
                    self.live(x) <==> old(self).live(x) && forall|j: int|
                        0 <= j < i ==> doomed@[j] != x,
                forall|x: u64| #[trigger]
                    self.live(x) ==> self.children()[x] == purged(
                        old(self).children()[x],
                        doomed@,
                        i as int,
                    ),
            decreases n - i,
        {
            let h = doomed[i];
            let ghost mid = *self;
            proof {
                assert(old(self).live(doomed@[i as int]));
                assert forall|j: int| 0 <= j < i implies doomed@[j] != h by {}
                assert(self.live(h));
                assert forall|w: int|
                    0 <= w < self.children()[h].len() implies self.parents().contains_key(
                    #[trigger] self.children()[h][w],
                ) by {}
                lemma_forest_without(self.children(), self.parents(), self.depths(), h);
            }
            match tree_remove(&mut self.taffy, h) {
                Ok(_) => {},
                Err(_) => vstd::pervasive::unreached(),
            }
            proof {
                assert forall|id: u128| self.index().contains_key(id) implies self.children().contains_key(
                    #[trigger] self.index()[id],
                ) by {
                    assert(old(self).index()[id] != doomed@[i as int]);
                    assert(mid.children().contains_key(mid.index()[id]));
                }
                assert forall|x: u64| #[trigger]
                    self.live(x) <==> old(self).live(x) && forall|j: int|
                        0 <= j < i + 1 ==> doomed@[j] != x by {
                    assert(self.live(x) <==> mid.live(x) && x != h);
                }
                assert forall|x: u64| #[trigger] self.live(x) implies self.children()[x] == purged(
                    old(self).children()[x],
                    doomed@,
                    i + 1,
                ) by {
                    assert(mid.live(x));
                    if mid.parents()[h] != Some(x) {
                        if mid.children()[x].contains(h) {
                            let w = choose|w: int|
                                0 <= w < mid.children()[x].len() && mid.children()[x][w] == h;
                            assert(mid.parents()[mid.children()[x][w]] == Some(x));
                        }
                        crate::forest::lemma_without_absent(mid.children()[x], h);
                    }
                }
            }
            i += 1;
        }
        proof {
            assert forall|x: u64| #[trigger]
                self.live(x) <==> old(self).live(x) && !doomed@.contains(x) by {
                if doomed@.contains(x) {
                    let j = choose|j: int| 0 <= j < doomed@.len() && doomed@[j] == x;
                }
            }
        }
    }
}

impl LayoutMapping {
    /// Queues the style of every change of the `style` attribute that
    /// resolves to another style than the node has.
    fn restyle_from(
        &mut self,
        h: u64,
        current: &Style,
        changes: &Vec<(String, Option<String>, Option<String>)>,
    )
        ensures
            final(self).taffy == old(self).taffy,
            final(self).id_map == old(self).id_map,
            final(self).depth == old(self).depth,
            final(self).queued_after(*old(self)),
            final(self).restyle@ == old(self).restyle@ + restyles(
                h,
                *current,
                changes_view(changes@),
                changes@.len() as int,
            ),
    {
        let n = changes.len();
        let mut i: usize = 0;
        assert(self.restyle@ =~= old(self).restyle@ + restyles(
            h,
            *current,
            changes_view(changes@),
            0,
        ));
        while i < n
            invariant
                n == changes@.len(),
                i <= n,
                self.taffy == old(self).taffy,
                self.id_map == old(self).id_map,
                self.depth == old(self).depth,
                self.restyle@ == old(self).restyle@ + restyles(
                    h,
                    *current,
                    changes_view(changes@),
                    i as int,
                ),
            decreases n - i,
        {
            let ghost so_far = restyles(h, *current, changes_view(changes@), i as int);
            if str_eq(changes[i].0.as_str(), "style") {
                match &changes[i].2 {
                    Some(value) => {
                        let style = Style::from_str(value.as_str());
                        if style != *current {
                            self.restyle.push((h, style));
                            assert(self.restyle@ =~= old(self).restyle@ + so_far.push((h, style)));
                        }
                    },
                    None => {},
                }
            }
            i += 1;
        }
    }

    /// The layout tree `self` has one more child below `h`: the layout
    /// subtree of `added`, at `at`. Its root was not live in `before`, and
    /// every other layout node of `before` has the children that it had.
    pub open spec fn grown(&self, before: LayoutMapping, h: u64, at: int, added: NodeModel) -> bool {
        &&& self.live(h)
        &&& self.children()[h] == before.children()[h].insert(at, self.index()[added.id()])
        &&& !before.live(self.index()[added.id()])
        &&& added.distinct_ids() ==> self.mirrors(added)
        &&& forall|x: u64| #[trigger]
            before.live(x) && x != h ==> self.live(x) && self.children()[x] == before.children()[x]
    }

    /// The layout tree `self` has lost the subtree of `gone`: every layout
    /// node of `before` outside it is still there, with the children that
    /// it had but for the root of the subtree.
    pub open spec fn shrunk(&self, before: LayoutMapping, gone: NodeModel) -> bool {
        forall|x: u64| #[trigger]
            before.live(x) && !before.carries(gone, x) ==> self.live(x) && self.children()[x]
                == without(before.children()[x], before.index()[gone.id()])
    }

    /// What holds before the layout tree follows the change from `node`
    /// to `target`: it mirrors `node`, no identity occurs twice in either
    /// tree, and `target` is settled on `node`.
    pub open spec fn ready(&self, node: NodeModel, target: NodeModel) -> bool {
        &&& self.mirrors(node)
        &&& node.distinct_ids()
        &&& target.distinct_ids()
        &&& settled(node, target)
    }

    /// Puts the layout subtree of `new_vnode` in the place of that of
    /// `old_vnode` and discards the old one with its index entries.
    fn replace_subtree(&mut self, old_vnode: &VNode, new_vnode: &VNode) -> (r: Result<
        (),
        LayoutError,
    >)
        requires
            old(self).wf(),
        ensures
            final(self).wf(),
            final(self).queued_after(*old(self)),
            r is Ok <==> old(self).index().contains_key(old_vnode@.id()),
            r matches Err(e) ==> e == LayoutError::Desynchronized && *final(self) == *old(self),
            forall|id: u128|
                !old_vnode@.has_id(id) && !new_vnode@.has_id(id)
                    ==> #[trigger] final(self).same_entry(*old(self), id),
            r is Ok ==> forall|id: u128|
                old_vnode@.has_id(id) && !new_vnode@.has_id(id)
                    ==> !(#[trigger] final(self).index().contains_key(id)),
            r is Ok ==> forall|id: u128|
                new_vnode@.has_id(id) ==> #[trigger] final(self).index().contains_key(id),
            old(self).mirrors(old_vnode@) && new_vnode@.distinct_ids() ==> r is Ok
                && final(self).follows(*old(self), old_vnode@, new_vnode@),
            r is Ok && new_vnode@.distinct_ids() ==> final(self).restyle@ == old(self).restyle@
                + queued(final(self).index(), new_vnode@),
    {
        broadcast use group_hash_axioms;

        let ghost before = *self;
        proof {
            if self.mirrors(old_vnode@) {
                assert(old_vnode@.has_id(old_vnode@.id()));
                self.lemma_mirror_registered(old_vnode@, old_vnode@.id());
            }
        }
        let old_id = old_vnode.get_internal_id();
        let old_node_id = match self.id_map.get(&old_id) {
            Some(h) => *h,
            None => {
                return Err(LayoutError::Desynchronized);
            },
        };
        let parent = tree_parent(&self.taffy, old_node_id);
        let mut position: usize = 0;
        match parent {
            Some(p) => {
                let children = match tree_children(&self.taffy, p) {
                    Ok(c) => c,
                    Err(_) => vstd::pervasive::unreached(),
                };
                match position_in(&children, old_node_id) {
                    Some(at) => {
                        position = at;
                    },
                    None => {
                        assert(false);
                    },
                }
            },
            None => {},
        }
        let ghost place: Option<(u64, int)> = match parent {
            Some(p) => Some((p, position as int)),
            None => None,
        };
        let ghost base: nat = match parent {
            Some(p) => self.depth@[p] + 1,
            None => 0,
        };
        let mut doomed: Vec<u64> = Vec::new();
        self.unregister(old_vnode, &mut doomed);
        let ghost cleared = *self;
        let new_child_id = self.build(new_vnode, Ghost(base));
        let ghost built = *self;
        proof {
            assert forall|j: int| 0 <= j < doomed@.len() implies self.live(#[trigger] doomed@[j]) by {
                assert(cleared.live(doomed@[j]));
            }
            assert forall|id: u128, j: int|
                self.index().contains_key(id) && 0 <= j < doomed@.len()
                implies #[trigger] self.index()[id] != #[trigger] doomed@[j] by {
                assert(cleared.live(doomed@[j]));
                if new_vnode@.has_id(id) {
                } else {
                    assert(self.index().contains_key(id));
                }
            }
        }
        match parent {
            Some(p) => {
                proof {
                    assert(before.live(p));
                    assert(cleared.live(p));
                    assert(cleared.live(old_node_id));
                    let gone = self.children()[p][position as int];
                    assert(gone == old_node_id);
                    let par3 = self.parents().insert(new_child_id, Some(p)).insert(gone, None);
                    assert forall|x: u64|
                        par3.contains_key(x) && (#[trigger] par3[x]) is Some implies par3.contains_key(
                        par3[x]->0,
                    ) && self.depths()[par3[x]->0] < self.depths()[x] by {
                        if x != new_child_id {
                            assert(self.parents()[x] is Some);
                        }
                    }
                    lemma_rooted(par3, self.depths(), p);
                }
                match tree_replace_child(&mut self.taffy, p, position, new_child_id) {
                    Ok(_) => {},
                    Err(_) => {
                        assert(false);
                    },
                }
                proof {
                    self.lemma_replaced(built, p, position as int, new_child_id);
                }
            },
            None => {},
        }
        let ghost spliced = *self;
        proof {
            assert forall|j: int| 0 <= j < doomed@.len() implies self.live(#[trigger] doomed@[j]) by {
                assert(built.live(doomed@[j]));
            }
        }
        self.drop_nodes(&doomed);
        proof {
            assert forall|id: u128|
                !old_vnode@.has_id(id) && !new_vnode@.has_id(id) implies #[trigger] self.same_entry(
                before,
                id,
            ) by {
                assert(cleared.same_entry(before, id));
            }
            assert forall|id: u128| old_vnode@.has_id(id) && !new_vnode@.has_id(id) implies !(
            #[trigger] self.index().contains_key(id)) by {
                assert(!cleared.index().contains_key(id));
            }
            if before.mirrors(old_vnode@) && new_vnode@.distinct_ids() {
                assert forall|x: u64| #[trigger] self.live(x) <==> built.live(x)
                    && !doomed@.contains(x) by {
                    assert(spliced.live(x) <==> built.live(x));
                }
                self.lemma_replace_follows(
                    before,
                    cleared,
                    built,
                    spliced,
                    old_vnode@,
                    new_vnode@,
                    doomed@,
                    place,
                );
            }
        }
        Ok(())
    }

    /// Builds the layout subtree of `new_vnode` and inserts it at `index`
    /// among the layout children of `node`.
    fn add_child(&mut self, node: &VNode, index: usize, new_vnode: &VNode) -> (r: Result<
        (),
        LayoutError,
    >)
        requires
            old(self).wf(),
        ensures
            final(self).wf(),
            final(self).queued_after(*old(self)),
            old(self).leaf_outcome(node@, PatchModel::AddChild(index as int, new_vnode@)) == Some(r),
            r is Err ==> *final(self) == *old(self),
            r is Ok ==> final(self).registers(*old(self), new_vnode@),
            r is Ok ==> final(self).grown(
                *old(self),
                old(self).index()[node@.id()],
                index as int,
                new_vnode@,
            ),
            r is Ok && new_vnode@.distinct_ids() ==> final(self).restyle@ == old(self).restyle@
                + queued(final(self).index(), new_vnode@),
    {
        broadcast use group_hash_axioms;

        let ghost before = *self;
        let id = node.get_internal_id();
        let node_id = match self.id_map.get(&id) {
            Some(h) => *h,
            None => {
                return Err(LayoutError::Desynchronized);
            },
        };
        let count = match tree_children(&self.taffy, node_id) {
            Ok(c) => c.len(),
            Err(_) => vstd::pervasive::unreached(),
        };
        if index > count {
            return Err(LayoutError::ChildIndexOutOfBounds);
        }
        let ghost base: nat = self.depth@[node_id] + 1;
        let new_node_id = self.build(new_vnode, Ghost(base));
        let ghost built = *self;
        proof {
            assert(before.live(node_id));
            let par2 = self.parents().insert(new_node_id, Some(node_id));
            assert forall|x: u64|
                par2.contains_key(x) && (#[trigger] par2[x]) is Some implies par2.contains_key(
                par2[x]->0,
            ) && self.depths()[par2[x]->0] < self.depths()[x] by {
                if x != new_node_id {
                    assert(self.parents()[x] is Some);
                }
            }
            lemma_rooted(par2, self.depths(), node_id);
        }
        match tree_insert_child(&mut self.taffy, node_id, index, new_node_id) {
            Ok(_) => {},
            Err(_) => {
                assert(false);
            },
        }
        proof {
            self.lemma_attached(
                built,
                node_id,
                new_node_id,
                built.children()[node_id].insert(index as int, new_node_id),
            );
            assert(new_vnode@.has_id(new_vnode@.id()));
            if new_vnode@.distinct_ids() {
                assert forall|id: u128| #[trigger]
                    new_vnode@.has_id(id) && built.index().contains_key(
                        id,
                    ) implies self.index().contains_key(id) && self.index()[id] == built.index()[id]
                    && self.live(self.index()[id]) && self.children()[self.index()[id]]
                    == built.children()[built.index()[id]] by {
                    assert(!before.live(built.index()[id]));
                    built.lemma_mirror_registered(new_vnode@, id);
                }
                self.lemma_mirrors_kept(built, new_vnode@);
            }
            assert forall|x: u64| #[trigger] before.live(x) && x != node_id implies self.live(x)
                && self.children()[x] == before.children()[x] by {
                assert(built.live(x));
            }
        }
        Ok(())
    }

    /// Discards the layout subtree of the child of `node` at `index` with its index entries.
    fn remove_child(&mut self, node: &VNode, index: usize) -> (r: Result<(), LayoutError>)
        requires
            old(self).wf(),
        ensures
            final(self).wf(),
            final(self).queued_after(*old(self)),
            old(self).leaf_outcome(node@, PatchModel::RemoveChild(index as int)) == Some(r),
            r is Err ==> *final(self) == *old(self),
            forall|id: u128|
                !discards(node@, PatchModel::RemoveChild(index as int), id)
                    ==> #[trigger] final(self).same_entry(*old(self), id),
            r is Ok ==> forall|id: u128|
                discards(node@, PatchModel::RemoveChild(index as int), id)
                    ==> !(#[trigger] final(self).index().contains_key(id)),
            r is Ok && old(self).mirrors(node@.kids()[index as int])
                ==> final(self).shrunk(*old(self), node@.kids()[index as int]),
            final(self).restyle == old(self).restyle,
    {
        let ghost before = *self;
        match node {
            VNode::Element(elem) => {
                if index < elem.children.len() {
                    let child = &elem.children[index];
                    assert(node@.kids()[index as int] == child@);
                    if !self.registered(child) {
                        return Err(LayoutError::Desynchronized);
                    }
                    let mut doomed: Vec<u64> = Vec::new();
                    self.unregister(child, &mut doomed);
                    let ghost cleared = *self;
                    self.drop_nodes(&doomed);
                    proof {
                        if before.mirrors(child@) {
                            assert forall|x: u64| #[trigger]
                                before.live(x) && !before.carries(child@, x) implies self.live(x)
                                && self.children()[x] == without(
                                before.children()[x],
                                before.index()[child@.id()],
                            ) by {
                                self.lemma_remove_shrinks(before, child@, doomed@, x);
                            }
                        }
                    }
                    Ok(())
                } else {
                    Err(LayoutError::ChildIndexOutOfBounds)
                }
            },
            VNode::Text(_) => Err(LayoutError::ChildIndexOutOfBounds),
        }
    }

    /// Applies a patch to the layout tree: `node` is the node of the old
    /// document tree that the patch addresses.
    ///
    /// A replacement builds the layout subtree of the new node, puts it in
    /// the place of the old one among the children of its layout parent,
    /// and discards the old layout subtree with its index entries. A change
    /// of attributes queues the new style where the `style` attribute
    /// resolves to another one. An added child is built and inserted at the
    /// index; a removed child is discarded with its subtree. A patch of a
    /// child descends into that child, and a composite applies its members
    /// in order to the same node. The first failure ends the work.
    ///
    /// The index changes only at identities that the patch discards or
    /// builds: what it only discards is gone from the index afterwards,
    /// what it only builds is registered, and every other node keeps its
    /// layout node and its index entry. A patch that does not descend
    /// succeeds exactly where `leaf_outcome` says so. Where the patch is
    /// the diff to a tree that the layout tree is ready for, the work
    /// succeeds and the layout tree has followed the change.
    pub fn apply_diff(&mut self, node: &VNode, diff: &DiffOp) -> (r: Result<(), LayoutError>)
        requires
            old(self).wf(),
        ensures
            final(self).wf(),
            final(self).queued_after(*old(self)),
            old(self).leaf_outcome(node@, diff@) matches Some(outcome) ==> r == outcome,
            r is Ok ==> final(self).leaf_queue(*old(self), node@, diff@),
            forall|id: u128|
                !discards(node@, diff@, id) && !creates(node@, diff@, id)
                    ==> #[trigger] final(self).same_entry(*old(self), id),
            r is Ok ==> forall|id: u128|
                discards(node@, diff@, id) && !creates(node@, diff@, id)
                    ==> !(#[trigger] final(self).index().contains_key(id)),
            r is Ok ==> forall|id: u128|
                creates(node@, diff@, id) && !discards(node@, diff@, id)
                    ==> #[trigger] final(self).index().contains_key(id),
            diff@ is ChangeAttributes ==> final(self).taffy == old(self).taffy
                && final(self).id_map == old(self).id_map,
            diff@ matches PatchModel::AddChild(at, added) ==> (r is Ok ==> final(self).registers(
                *old(self),
                added,
            ) && final(self).grown(*old(self), old(self).index()[node@.id()], at, added)),
            diff@ matches PatchModel::RemoveChild(at) ==> (r is Ok && old(self).mirrors(
                node@.kids()[at],
            ) ==> final(self).shrunk(*old(self), node@.kids()[at])),
            diff@ matches PatchModel::Replace(gone, fresh) ==> (old(self).mirrors(gone)
                && fresh.distinct_ids() ==> r is Ok && final(self).follows(
                *old(self),
                gone,
                fresh,
            )),
            forall|target: NodeModel| #[trigger]
                is_diff(diff@, node@, target) && old(self).ready(scope(node@, diff@), target)
                    ==> r is Ok && final(self).follows(*old(self), scope(node@, diff@), target),
    {
        let ghost before = *self;
        let ghost goal = choose|goal: NodeModel|
            is_diff(diff@, node@, goal) && before.ready(scope(node@, diff@), goal);
        let r = self.follow(node, diff, Ghost(goal));
        proof {
            assert forall|target: NodeModel| #[trigger]
                is_diff(diff@, node@, target) && before.ready(
                    scope(node@, diff@),
                    target,
                ) implies r is Ok && self.follows(before, scope(node@, diff@), target) by {
                let at = scope(node@, diff@);
                lemma_is_diff(diff@, node@, goal);
                lemma_targets_agree(at, goal, target);
                self.lemma_follows_same_ids(before, at, goal, target);
            }
        }
        r
    }

    /// Applies a patch to the layout tree; `target` is the tree that the
    /// patch leads to, where the patch is a diff.
    fn follow(&mut self, node: &VNode, diff: &DiffOp, Ghost(target): Ghost<NodeModel>) -> (r:
        Result<(), LayoutError>)
        requires
            old(self).wf(),
        ensures
            final(self).wf(),
            final(self).queued_after(*old(self)),
            old(self).leaf_outcome(node@, diff@) matches Some(outcome) ==> r == outcome,
            r is Ok ==> final(self).leaf_queue(*old(self), node@, diff@),
            forall|id: u128|
                !discards(node@, diff@, id) && !creates(node@, diff@, id)
                    ==> #[trigger] final(self).same_entry(*old(self), id),
            r is Ok ==> forall|id: u128|
                discards(node@, diff@, id) && !creates(node@, diff@, id)
                    ==> !(#[trigger] final(self).index().contains_key(id)),
            r is Ok ==> forall|id: u128|
                creates(node@, diff@, id) && !discards(node@, diff@, id)
                    ==> #[trigger] final(self).index().contains_key(id),
            diff@ is ChangeAttributes ==> final(self).taffy == old(self).taffy
                && final(self).id_map == old(self).id_map,
            diff@ matches PatchModel::AddChild(at, added) ==> (r is Ok
                ==> final(self).registers(*old(self), added)
                    && final(self).grown(*old(self), old(self).index()[node@.id()], at, added)),
            diff@ matches PatchModel::RemoveChild(at) ==> (r is Ok
                && old(self).mirrors(node@.kids()[at])
                    ==> final(self).shrunk(*old(self), node@.kids()[at])),
            diff@ matches PatchModel::Replace(gone, fresh) ==> (old(self).mirrors(gone)
                && fresh.distinct_ids() ==> r is Ok && final(self).follows(
                *old(self),
                gone,
                fresh,
            )),
            is_diff(diff@, node@, target) && old(self).ready(scope(node@, diff@), target)
                ==> r is Ok && final(self).follows(*old(self), scope(node@, diff@), target),
        decreases diff,
    {
        broadcast use group_hash_axioms;

        let ghost before = *self;
        match diff {
            DiffOp::Replace(old_vnode, new_vnode) => {
                proof {
                    crate::sync::lemma_diff_shape(node@, target);
                }
                match self.replace_subtree(old_vnode, new_vnode) {
                    Ok(_) => {
                        proof {
                            if is_diff(diff@, node@, target) {
                                assert(old_vnode@ == node@);
                                assert(new_vnode@ == target);
                                assert(scope(node@, diff@) == node@);
                            }
                        }
                        Ok(())
                    },
                    Err(e) => Err(e),
                }
            },
            DiffOp::ChangeAttributes { tag: _tag, changes } => {
                proof {
                    crate::sync::lemma_diff_shape(node@, target);
                }
                let id = node.get_internal_id();
                let current_node_id = match self.id_map.get(&id) {
                    Some(h) => *h,
                    None => {
                        return Err(LayoutError::Desynchronized);
                    },
                };
                self.restyle_from(current_node_id, node.get_style(), changes);
                Ok(())
            },
            DiffOp::AddChild(index, new_vnode) => {
                proof {
                    crate::sync::lemma_diff_shape(node@, target);
                }
                self.add_child(node, *index, new_vnode)
            },
            DiffOp::RemoveChild(index) => {
                proof {
                    crate::sync::lemma_diff_shape(node@, target);
                }
                self.remove_child(node, *index)
            },
            DiffOp::PatchChild(index, boxed_diff) => {
                match node {
                    VNode::Element(elem) => {
                        if *index < elem.children.len() {
                            let child = &elem.children[*index];
                            assert(node@.kids()[*index as int] == child@);
                            self.follow(child, boxed_diff, Ghost(target))
                        } else {
                            Ok(())
                        }
                    },
                    VNode::Text(_) => Ok(()),
                }
            },
            DiffOp::Composite(ops) => {
                let ghost all = ops_view(ops@);
                let ghost olds = node@.kids();
                let ghost news = target.kids();
                let ghost top = longer(olds.len() as int, news.len() as int);
                let ghost steps = child_ops(olds, news, top);
                let ghost aimed = is_diff(diff@, node@, target) && before.ready(node@, target);
                let ghost head_len = all.len() - steps.len();
                let ghost mut n: int = 0;
                proof {
                    if aimed {
                        lemma_composite_diff(node@, target, all);
                        before.lemma_way_begins(node@, target);
                    }
                }
                let n_ops = ops.len();
                let mut i: usize = 0;
                while i < n_ops
                    invariant
                        decreases_to!(diff => ops),
                        before == *old(self),
                        diff@ == PatchModel::Composite(all),
                        all == ops_view(ops@),
                        n_ops == ops@.len(),
                        i <= n_ops,
                        self.wf(),
                        self.queued_after(before),
                        forall|id: u128|
                            !discards(node@, diff@, id) && !creates(
                                node@,
                                diff@,
                                id,
                            ) ==> #[trigger] self.same_entry(before, id),
                        forall|id: u128|
                            (exists|k: int| 0 <= k < i && discards(node@, #[trigger] all[k], id))
                                && !creates(node@, diff@, id) ==> !(
                            #[trigger] self.index().contains_key(id)),
                        forall|id: u128|
                            (exists|k: int| 0 <= k < i && creates(node@, #[trigger] all[k], id))
                                && !discards(node@, diff@, id)
                                ==> #[trigger] self.index().contains_key(id),
                        olds == node@.kids(),
                        news == target.kids(),
                        top == longer(olds.len() as int, news.len() as int),
                        steps == child_ops(olds, news, top),
                        head_len == all.len() - steps.len(),
                        aimed == (is_diff(diff@, node@, target) && before.ready(node@, target)),
                        aimed ==> aims(node@, target, all) && 0 <= n <= top && self.under_way(
                            before,
                            node@,
                            target,
                            n,
                        ) && (if i >= head_len {
                            child_ops(olds, news, n).len() == i - head_len
                        } else {
                            n == 0
                        }),
                    decreases n_ops - i,
                {
                    let ghost mid = *self;
                    let ghost step = all[i as int];
                    assert(step == ops@[i as int]@);
                    let ghost j: int = if aimed && i >= head_len {
                        next_op(olds, news, n, top)
                    } else {
                        0
                    };
                    let ghost goal = if aimed && i >= head_len && j < news.len() {
                        news[j]
                    } else {
                        node@
                    };
                    proof {
                        if aimed {
                            if i >= head_len {
                                lemma_next_step(olds, news, n, top);
                                lemma_next_op(olds, news, n, top);
                                self.lemma_way_goes_on(before, node@, target, n, j);
                                assert(all[(i - head_len) + all.len() - steps.len()] == steps[i
                                    - head_len]);
                                assert(step == child_step(olds, news, j));
                                self.lemma_step_ahead(before, node@, target, j, step, goal);
                            } else {
                                assert(step is ChangeAttributes);
                                self.lemma_way_registered(before, node@, target, n);
                            }
                        }
                    }
                    let r = self.follow(node, &ops[i], Ghost(goal));
                    proof {
                        assert(self.queued_after(before)) by {
                            assert(self.queued_after(mid));
                        }
                        assert forall|id: u128|
                            !discards(node@, diff@, id) && !creates(
                                node@,
                                diff@,
                                id,
                            ) implies #[trigger] self.same_entry(before, id) by {
                            assert(!discards(node@, all[i as int], id));
                            assert(!creates(node@, all[i as int], id));
                            assert(self.same_entry(mid, id));
                            assert(mid.same_entry(before, id));
                        }
                    }
                    match r {
                        Ok(_) => {},
                        Err(e) => {
                            proof {
                                assert(scope(node@, diff@) == node@);
                                assert(!aimed);
                            }
                            return Err(e);
                        },
                    }
                    proof {
                        assert forall|id: u128|
                            (exists|k: int|
                                0 <= k < i + 1 && discards(node@, #[trigger] all[k], id))
                                && !creates(node@, diff@, id) implies !(
                        #[trigger] self.index().contains_key(id)) by {
                            assert(!creates(node@, all[i as int], id));
                            if discards(node@, step, id) {
                            } else {
                                let k = choose|k: int|
                                    0 <= k < i + 1 && discards(node@, #[trigger] all[k], id);
                                assert(k < i);
                                assert(self.same_entry(mid, id));
                            }
                        }
                        assert forall|id: u128|
                            (exists|k: int| 0 <= k < i + 1 && creates(node@, #[trigger] all[k], id))
                                && !discards(
                                node@,
                                diff@,
                                id,
                            ) implies #[trigger] self.index().contains_key(id) by {
                            assert(!discards(node@, all[i as int], id));
                            if creates(node@, step, id) {
                            } else {
                                let k = choose|k: int|
                                    0 <= k < i + 1 && creates(node@, #[trigger] all[k], id);
                                assert(k < i);
                                assert(self.same_entry(mid, id));
                            }
                        }
                        if aimed {
                            if i >= head_len {
                                self.lemma_step_done(mid, before, node@, target, j, step);
                                n = j + 1;
                            } else {
                                self.lemma_way_unchanged(mid, before, node@, target, n);
                            }
                        }
                    }
                    i += 1;
                }
                proof {
                    if aimed {
                        lemma_next_op(olds, news, n, top);
                        if next_op(olds, news, n, top) < top {
                            lemma_child_ops_prefix(olds, news, next_op(olds, news, n, top) + 1, top);
                        }
                        self.lemma_way_goes_on(before, node@, target, n, top);
                        self.lemma_way_ends(before, node@, target);
                    }
                }
                Ok(())
            },
        }
    }
}

impl LayoutMapping {
    /// Lets the layout tree follow the change from `old` to `new`: diffs
    /// the two trees and applies the patch. Tells whether there was a patch.
    ///
    /// Where the layout tree mirrors `old`, no identity occurs twice in
    /// either tree and `new` is settled on `old`, this succeeds, the layout
    /// tree mirrors `new` afterwards, and every node that the diff leaves
    /// alone keeps its layout node and its index entry.
    pub fn reconcile(&mut self, old_tree: &VNode, new_tree: &VNode) -> (r: Result<bool, LayoutError>)
        requires
            old(self).wf(),
        ensures
            final(self).wf(),
            final(self).queued_after(*old(self)),
            r matches Ok(changed) ==> changed == diff_spec(old_tree@, new_tree@).is_some(),
            diff_spec(old_tree@, new_tree@) is None ==> r is Ok && *final(self) == *old(self),
            forall|id: u128|
                !old_tree@.has_id(id) && !new_tree@.has_id(id)
                    ==> #[trigger] final(self).same_entry(*old(self), id),
            old(self).ready(old_tree@, new_tree@) ==> r is Ok && final(self).mirrors(new_tree@)
                && forall|id: u128|
                kept(old_tree@, new_tree@, id) ==> #[trigger] final(self).same_entry(*old(self), id),
    {
        let ghost before = *self;
        match diff_vnode(old_tree, new_tree) {
            None => {
                proof {
                    if self.ready(old_tree@, new_tree@) {
                        crate::sync::lemma_no_diff_same_ids(old_tree@, new_tree@);
                        self.lemma_mirrors_same_ids(old_tree@, new_tree@);
                    }
                }
                Ok(false)
            },
            Some(patch) => {
                proof {
                    crate::sync::lemma_diff_shape(old_tree@, new_tree@);
                    assert(is_diff(patch@, old_tree@, new_tree@));
                    assert(scope(old_tree@, patch@) == old_tree@);
                }
                match self.follow(old_tree, &patch, Ghost(new_tree@)) {
                    Ok(_) => {
                        proof {
                            assert forall|id: u128|
                                !old_tree@.has_id(id) && !new_tree@.has_id(
                                    id,
                                ) implies #[trigger] self.same_entry(before, id) by {
                                crate::sync::lemma_diff_within(old_tree@, new_tree@, id);
                            }
                            if before.ready(old_tree@, new_tree@) {
                                assert forall|id: u128|
                                    kept(old_tree@, new_tree@, id) implies #[trigger] self.same_entry(
                                    before,
                                    id,
                                ) by {
                                    crate::sync::lemma_kept_untouched(old_tree@, new_tree@, id);
                                }
                            }
                        }
                        Ok(true)
                    },
                    Err(e) => {
                        proof {
                            assert forall|id: u128|
                                !old_tree@.has_id(id) && !new_tree@.has_id(
                                    id,
                                ) implies #[trigger] self.same_entry(before, id) by {
                                crate::sync::lemma_diff_within(old_tree@, new_tree@, id);
                            }
                        }
                        Err(e)
                    },
                }
            },
        }
    }
}

} // verus!
