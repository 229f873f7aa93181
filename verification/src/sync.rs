//! How the layout tree follows a diff: the document trees on the way from
//! the old tree to the new one.
use vstd::prelude::*;
use crate::laws::with_kids;
use crate::layout::LayoutMapping;
use crate::patch::{PatchModel, child_ops, diff_spec, longer};
use crate::vdom::NodeModel;

verus! {

/// The two trees have the same identities at the same places.
pub open spec fn same_ids(a: NodeModel, b: NodeModel) -> bool
    decreases a,
{
    &&& a.id() == b.id()
    &&& a.kids().len() == b.kids().len()
    &&& match a {
        NodeModel::Element { children, .. } => forall|i: int|
            0 <= i < children.len() ==> same_ids(#[trigger] children[i], b.kids()[i]),
        NodeModel::Text { .. } => true,
    }
}

/// The new tree keeps the identity of every element that keeps its tag,
/// and no identity moves from one child position to another.
pub open spec fn settled(old: NodeModel, new: NodeModel) -> bool
    decreases old,
{
    match (old, new) {
        (
            NodeModel::Element { identity, tag, children, .. },
            NodeModel::Element { identity: identity2, tag: tag2, children: children2, .. },
        ) => tag == tag2 ==> {
            &&& identity == identity2
            &&& forall|i: int, j: int, id: u128|
                0 <= i < children2.len() && 0 <= j < children.len() && i != j ==> !(
                #[trigger] children2[i].has_id(id) && #[trigger] children[j].has_id(id))
            &&& forall|i: int|
                0 <= i < children.len() && i < children2.len() ==> settled(
                    #[trigger] children[i],
                    children2[i],
                )
        },
        _ => true,
    }
}

/// A diff is the replacement of the old tree by the new one, or a composite.
pub proof fn lemma_diff_shape(old: NodeModel, new: NodeModel)
    ensures
        diff_spec(old, new) matches Some(p) ==> p == PatchModel::Replace(old, new) || p is Composite,
{
}

/// A tree has the same identities as itself.
pub proof fn lemma_same_ids_reflexive(a: NodeModel)
    ensures
        same_ids(a, a),
    decreases a,
{
    match a {
        NodeModel::Element { children, .. } => {
            assert forall|i: int| 0 <= i < children.len() implies same_ids(
                #[trigger] children[i],
                a.kids()[i],
            ) by {
                lemma_same_ids_reflexive(children[i]);
            }
        },
        NodeModel::Text { .. } => {},
    }
}

/// What needs no child patch is a pair of children without a diff.
pub proof fn lemma_no_child_ops(olds: Seq<NodeModel>, news: Seq<NodeModel>, n: int)
    requires
        0 <= n <= longer(olds.len() as int, news.len() as int),
        child_ops(olds, news, n).len() == 0,
    ensures
        n <= olds.len(),
        n <= news.len(),
        forall|i: int| 0 <= i < n ==> diff_spec(#[trigger] olds[i], news[i]) is None,
    decreases n,
{
    if n > 0 {
        lemma_no_child_ops(olds, news, n - 1);
    }
}

/// Trees without a diff, of which the new one is settled on the old one,
/// have the same identities at the same places.
pub proof fn lemma_no_diff_same_ids(old: NodeModel, new: NodeModel)
    requires
        diff_spec(old, new) is None,
        settled(old, new),
    ensures
        same_ids(old, new),
    decreases old,
{
    match (old, new) {
        (
            NodeModel::Element { children, .. },
            NodeModel::Element { children: children2, .. },
        ) => {
            let top = longer(children.len() as int, children2.len() as int);
            lemma_no_child_ops(children, children2, top);
            assert forall|i: int| 0 <= i < children.len() implies same_ids(
                #[trigger] children[i],
                new.kids()[i],
            ) by {
                lemma_no_diff_same_ids(children[i], children2[i]);
            }
        },
        _ => {},
    }
}

impl LayoutMapping {
    /// A layout tree that mirrors a tree mirrors every tree with the same
    /// identities at the same places.
    pub proof fn lemma_mirrors_same_ids(&self, a: NodeModel, b: NodeModel)
        requires
            self.mirrors(a),
            same_ids(a, b),
        ensures
            self.mirrors(b),
        decreases a,
    {
        match a {
            NodeModel::Element { children, .. } => {
                let kids = b.kids();
                assert forall|i: int| 0 <= i < kids.len() implies self.index().contains_key(
                    (#[trigger] kids[i]).id(),
                ) && self.children()[self.index()[b.id()]][i] == self.index()[kids[i].id()]
                    && self.mirrors(kids[i]) by {
                    assert(same_ids(children[i], kids[i]));
                    self.lemma_mirrors_same_ids(children[i], kids[i]);
                }
            },
            NodeModel::Text { .. } => {},
        }
    }
}

/// The children on the way from `olds` to `news`, after the child patches
/// for the indices below `n`: new children up to `n`, then the old
/// children that are left.
pub open spec fn mixed(olds: Seq<NodeModel>, news: Seq<NodeModel>, n: int) -> Seq<NodeModel> {
    if n <= news.len() {
        Seq::new(
            longer(olds.len() as int, n) as nat,
            |j: int|
                if j < n {
                    news[j]
                } else {
                    olds[j]
                },
        )
    } else {
        Seq::new(
            (news.len() + olds.len() - n) as nat,
            |j: int|
                if j < news.len() {
                    news[j]
                } else {
                    olds[j + n - news.len()]
                },
        )
    }
}

/// The child patches for fewer indices are the first of those for more.
pub proof fn lemma_child_ops_prefix(olds: Seq<NodeModel>, news: Seq<NodeModel>, n: int, m: int)
    requires
        0 <= n <= m,
    ensures
        child_ops(olds, news, n).len() <= child_ops(olds, news, m).len(),
        forall|j: int|
            0 <= j < child_ops(olds, news, n).len() ==> #[trigger] child_ops(olds, news, m)[j]
                == child_ops(olds, news, n)[j],
    decreases m - n,
{
    if n < m {
        lemma_child_ops_prefix(olds, news, n, m - 1);
    }
}

/// The first index from `n` on whose child patch is not empty, or `top`.
pub open spec fn next_op(olds: Seq<NodeModel>, news: Seq<NodeModel>, n: int, top: int) -> int
    decreases top - n,
{
    if n >= top {
        top
    } else if child_ops(olds, news, n + 1).len() > child_ops(olds, news, n).len() {
        n
    } else {
        next_op(olds, news, n + 1, top)
    }
}

/// Up to the next child patch every pair of children is without a diff;
/// the next child patch is the one that follows those for the indices below `n`.
pub proof fn lemma_next_op(olds: Seq<NodeModel>, news: Seq<NodeModel>, n: int, top: int)
    requires
        0 <= n <= top,
        top == longer(olds.len() as int, news.len() as int),
    ensures
        n <= next_op(olds, news, n, top) <= top,
        child_ops(olds, news, next_op(olds, news, n, top)).len() == child_ops(olds, news, n).len(),
        forall|m: int|
            n <= m < next_op(olds, news, n, top) ==> m < olds.len() && m < news.len() && diff_spec(
                #[trigger] olds[m],
                news[m],
            ) is None,
        next_op(olds, news, n, top) < top ==> child_ops(olds, news, next_op(olds, news, n, top) + 1)
            == child_ops(olds, news, next_op(olds, news, n, top)).push(
            child_ops(olds, news, top)[child_ops(olds, news, n).len() as int],
        ),
        next_op(olds, news, n, top) == top ==> child_ops(olds, news, top).len() == child_ops(
            olds,
            news,
            n,
        ).len(),
    decreases top - n,
{
    if n < top {
        if child_ops(olds, news, n + 1).len() > child_ops(olds, news, n).len() {
            lemma_child_ops_prefix(olds, news, n + 1, top);
            let longer_ops = child_ops(olds, news, n + 1);
            let shorter = child_ops(olds, news, n);
            assert(longer_ops.len() == shorter.len() + 1);
            assert(longer_ops =~= shorter.push(longer_ops[shorter.len() as int]));
        } else {
            lemma_next_op(olds, news, n + 1, top);
            assert(child_ops(olds, news, n + 1) == child_ops(olds, news, n));
        }
    }
}

/// Where the pair of children at `m` is without a diff and the new tree is
/// settled on the old one, the children on the way have the same
/// identities before and after `m`.
pub proof fn lemma_mixed_unchanged(olds: Seq<NodeModel>, news: Seq<NodeModel>, m: int)
    requires
        0 <= m < olds.len(),
        m < news.len(),
        diff_spec(olds[m], news[m]) is None,
        settled(olds[m], news[m]),
    ensures
        mixed(olds, news, m).len() == mixed(olds, news, m + 1).len(),
        forall|j: int|
            0 <= j < mixed(olds, news, m).len() ==> same_ids(
                #[trigger] mixed(olds, news, m)[j],
                mixed(olds, news, m + 1)[j],
            ),
{
    let a = mixed(olds, news, m);
    let b = mixed(olds, news, m + 1);
    assert forall|j: int| 0 <= j < a.len() implies same_ids(#[trigger] a[j], b[j]) by {
        if j == m {
            lemma_no_diff_same_ids(olds[m], news[m]);
        } else {
            lemma_same_ids_reflexive(a[j]);
        }
    }
}


/// Both trees are elements with the same tag.
pub open spec fn same_tag(node: NodeModel, target: NodeModel) -> bool {
    match (node, target) {
        (NodeModel::Element { tag, .. }, NodeModel::Element { tag: tag2, .. }) => tag == tag2,
        _ => false,
    }
}

/// The tree on the way from `node` to `target`, after the child patches for the indices below `n`.
pub open spec fn on_the_way(node: NodeModel, target: NodeModel, n: int) -> NodeModel {
    with_kids(node, mixed(node.kids(), target.kids(), n))
}

/// What the trees of a settled pair have apart: an identity of one child
/// position is none of another, old or new, nor that of the parent.
pub proof fn lemma_apart(node: NodeModel, target: NodeModel, i: int, j: int, id: u128)
    requires
        same_tag(node, target),
        node.distinct_ids(),
        target.distinct_ids(),
        settled(node, target),
        i != j,
        0 <= i,
        0 <= j,
    ensures
        node.id() == target.id(),
        i < node.kids().len() && j < node.kids().len() ==> !(node.kids()[i].has_id(id)
            && node.kids()[j].has_id(id)),
        i < target.kids().len() && j < target.kids().len() ==> !(target.kids()[i].has_id(id)
            && target.kids()[j].has_id(id)),
        i < target.kids().len() && j < node.kids().len() ==> !(target.kids()[i].has_id(id)
            && node.kids()[j].has_id(id)),
        i < node.kids().len() ==> !node.kids()[i].has_id(node.id()),
        i < target.kids().len() ==> !target.kids()[i].has_id(node.id()),
        i < node.kids().len() ==> node.kids()[i].distinct_ids(),
        i < target.kids().len() ==> target.kids()[i].distinct_ids(),
        i < node.kids().len() && i < target.kids().len() ==> settled(
            node.kids()[i],
            target.kids()[i],
        ),
{
    let olds = node.kids();
    let news = target.kids();
    if i < olds.len() && j < olds.len() {
        if i < j {
            assert(!(olds[i].has_id(id) && olds[j].has_id(id)));
        } else {
            assert(!(olds[j].has_id(id) && olds[i].has_id(id)));
        }
    }
    if i < news.len() && j < news.len() {
        if i < j {
            assert(!(news[i].has_id(id) && news[j].has_id(id)));
        } else {
            assert(!(news[j].has_id(id) && news[i].has_id(id)));
        }
    }
    if i < news.len() && j < olds.len() {
        assert(!(news[i].has_id(id) && olds[j].has_id(id)));
    }
    if i < olds.len() {
        assert(!olds[i].has_id(node.id()));
        assert(olds[i].distinct_ids());
    }
    if i < news.len() {
        assert(!news[i].has_id(target.id()));
        assert(news[i].distinct_ids());
    }
    if i < olds.len() && i < news.len() {
        assert(settled(olds[i], news[i]));
    }
}

impl LayoutMapping {
    /// The state of the layout tree on the way from `node` to `target`,
    /// after the child patches for the indices below `n`: it mirrors the
    /// tree on the way, the layout node of `node` is the one of `before`,
    /// the index is as in `before` for every identity outside the two trees
    /// and for those of the old children that are still to come, and the
    /// layout nodes of `before` outside the subtree are as they were.
    pub open spec fn under_way(
        &self,
        before: LayoutMapping,
        node: NodeModel,
        target: NodeModel,
        n: int,
    ) -> bool {
        &&& self.mirrors(on_the_way(node, target, n))
        &&& before.index().contains_key(node.id())
        &&& self.index()[node.id()] == before.index()[node.id()]
        &&& forall|id: u128|
            !node.has_id(id) && !target.has_id(id) ==> #[trigger] self.same_entry(before, id)
        &&& forall|k: int, id: u128|
            n <= k < node.kids().len() && (#[trigger] node.kids()[k]).has_id(id)
                ==> #[trigger] self.same_entry(before, id)
        &&& forall|x: u64| #[trigger]
            before.live(x) && !before.carries(node, x) ==> self.live(x) && self.children()[x]
                == before.children()[x]
    }

    /// A layout tree that mirrors `node` is on the way from it, before any child patch.
    pub proof fn lemma_way_begins(&self, node: NodeModel, target: NodeModel)
        requires
            self.mirrors(node),
            node is Element,
        ensures
            self.under_way(*self, node, target, 0),
    {
        assert(mixed(node.kids(), target.kids(), 0) =~= node.kids());
        assert(on_the_way(node, target, 0) == node);
    }

    /// Children without a diff take the way on without a change of the layout tree.
    pub proof fn lemma_way_goes_on(
        &self,
        before: LayoutMapping,
        node: NodeModel,
        target: NodeModel,
        n: int,
        m: int,
    )
        requires
            self.under_way(before, node, target, n),
            same_tag(node, target),
            node.distinct_ids(),
            target.distinct_ids(),
            settled(node, target),
            0 <= n <= m,
            forall|k: int|
                n <= k < m ==> k < node.kids().len() && k < target.kids().len() && diff_spec(
                    #[trigger] node.kids()[k],
                    target.kids()[k],
                ) is None,
        ensures
            self.under_way(before, node, target, m),
        decreases m - n,
    {
        if n < m {
            let olds = node.kids();
            let news = target.kids();
            assert(diff_spec(olds[n], news[n]) is None);
            assert(settled(olds[n], news[n]));
            lemma_mixed_unchanged(olds, news, n);
            let a = on_the_way(node, target, n);
            let b = on_the_way(node, target, n + 1);
            assert(same_ids(a, b));
            self.lemma_mirrors_same_ids(a, b);
            self.lemma_way_goes_on(before, node, target, n + 1, m);
        }
    }

    /// At the end of the way the layout tree has followed the change from `node` to `target`.
    pub proof fn lemma_way_ends(&self, before: LayoutMapping, node: NodeModel, target: NodeModel)
        requires
            self.under_way(
                before,
                node,
                target,
                longer(node.kids().len() as int, target.kids().len() as int),
            ),
            same_tag(node, target),
            settled(node, target),
            before.mirrors(node),
        ensures
            self.follows(before, node, target),
    {
        let top = longer(node.kids().len() as int, target.kids().len() as int);
        let last = on_the_way(node, target, top);
        assert(mixed(node.kids(), target.kids(), top) =~= target.kids());
        assert(last.kids() == target.kids());
        assert(last.id() == target.id());
        assert(self.mirrors(target)) by {
            lemma_same_ids_reflexive(target);
            assert forall|i: int| 0 <= i < last.kids().len() implies same_ids(
                #[trigger] last.kids()[i],
                target.kids()[i],
            ) by {
                lemma_same_ids_reflexive(target.kids()[i]);
            }
            assert(same_ids(last, target));
            self.lemma_mirrors_same_ids(last, target);
        }
        assert forall|x: u64| #[trigger] before.live(x) && !before.carries(node, x) implies self.live(
            x,
        ) && self.children()[x] == crate::forest::swapped(
            before.children()[x],
            before.index()[node.id()],
            self.index()[target.id()],
        ) by {
            assert(crate::forest::swapped(
                before.children()[x],
                before.index()[node.id()],
                before.index()[node.id()],
            ) =~= before.children()[x]);
        }
    }
}


impl LayoutMapping {
    /// A child of the tree on the way, other than the one at `j`, is
    /// mirrored after a step that left its identities and its layout nodes alone.
    proof fn lemma_sibling_kept(
        &self,
        cur: LayoutMapping,
        sibling: NodeModel,
        moved: u64,
        to: u64,
        parent: u64,
    )
        requires
            cur.wf(),
            cur.mirrors(sibling),
            cur.live(moved),
            cur.parents()[moved] == Some(parent),
            forall|id: u128| #[trigger] sibling.has_id(id) ==> cur.index()[id] != parent,
            forall|id: u128| sibling.has_id(id) ==> #[trigger] self.same_entry(cur, id),
            forall|id: u128| #[trigger]
                sibling.has_id(id) ==> self.live(cur.index()[id]) && (
                self.children()[cur.index()[id]] == cur.children()[cur.index()[id]]
                    || self.children()[cur.index()[id]] == crate::forest::swapped(
                    cur.children()[cur.index()[id]],
                    moved,
                    to,
                ) || self.children()[cur.index()[id]] == crate::engine::without(
                    cur.children()[cur.index()[id]],
                    moved,
                )),
        ensures
            self.mirrors(sibling),
    {
        assert forall|id: u128| #[trigger]
            sibling.has_id(id) && cur.index().contains_key(id) implies self.index().contains_key(id)
            && self.index()[id] == cur.index()[id] && self.live(self.index()[id])
            && self.children()[self.index()[id]] == cur.children()[cur.index()[id]] by {
            assert(self.same_entry(cur, id));
            let v = cur.index()[id];
            assert(self.live(v));
            cur.lemma_mirror_registered(sibling, id);
            let list = cur.children()[v];
            assert(!list.contains(moved)) by {
                if list.contains(moved) {
                    let k = choose|k: int| 0 <= k < list.len() && list[k] == moved;
                    assert(cur.parents()[cur.children()[v][k]] == Some(v));
                }
            }
            crate::forest::lemma_swapped_absent(list, moved, to);
            crate::forest::lemma_without_absent(list, moved);
        }
        self.lemma_mirrors_kept(cur, sibling);
    }

    /// The way goes on over a child that a patch has led to its new tree.
    pub proof fn lemma_step_patch(
        &self,
        cur: LayoutMapping,
        before: LayoutMapping,
        node: NodeModel,
        target: NodeModel,
        j: int,
    )
        requires
            cur.wf(),
            cur.under_way(before, node, target, j),
            same_tag(node, target),
            node.distinct_ids(),
            target.distinct_ids(),
            settled(node, target),
            0 <= j < node.kids().len(),
            j < target.kids().len(),
            self.follows(cur, node.kids()[j], target.kids()[j]),
        ensures
            self.under_way(before, node, target, j + 1),
    {
        let olds = node.kids();
        let news = target.kids();
        let a = on_the_way(node, target, j);
        let b = on_the_way(node, target, j + 1);
        let h = cur.index()[node.id()];
        let was = olds[j];
        let now = news[j];
        let hc = cur.index()[was.id()];
        let hn = self.index()[now.id()];
        assert(a.kids() == mixed(olds, news, j));
        assert(b.kids() == mixed(olds, news, j + 1));
        assert(a.kids()[j] == was);
        assert(cur.mirrors(was));
        assert(cur.children()[h][j] == hc);
        assert(cur.parents()[cur.children()[h][j]] == Some(h));
        assert(node.has_id(node.id()));
        assert(was.has_id(was.id()));
        assert(now.has_id(now.id()));
        lemma_apart(node, target, j, j + 1, node.id());
        // The layout node of the parent is none of the old child.
        assert(!cur.carries(was, h)) by {
            if cur.carries(was, h) {
                let id = choose|id: u128|
                    was.has_id(id) && cur.index().contains_key(id) && #[trigger] cur.index()[id]
                        == h;
                assert(id != node.id());
            }
        }
        assert(self.same_entry(cur, node.id()));
        assert(cur.live(h));
        assert(self.live(h));
        let list = cur.children()[h];
        assert(self.children()[h] == crate::forest::swapped(list, hc, hn));
        assert forall|k: int| 0 <= k < b.kids().len() implies self.index().contains_key(
            (#[trigger] b.kids()[k]).id(),
        ) && self.children()[h][k] == self.index()[b.kids()[k].id()] && self.mirrors(b.kids()[k]) by {
            if k != j {
                let s = a.kids()[k];
                assert(b.kids()[k] == s);
                assert(cur.mirrors(s));
                assert(s.has_id(s.id()));
                assert forall|id: u128| s.has_id(id) implies !was.has_id(id) && !now.has_id(id)
                    && id != node.id() by {
                    lemma_apart(node, target, k, j, id);
                    lemma_apart(node, target, j, k, id);
                }
                assert(list[k] == cur.index()[s.id()]);
                assert(list[k] != hc) by {
                    if k < j {
                        assert(list[k] != list[j]);
                    } else {
                        assert(list[j] != list[k]);
                    }
                }
                assert forall|id: u128| s.has_id(id) implies #[trigger] self.same_entry(cur, id) by {}
                assert forall|id: u128| #[trigger] s.has_id(id) implies cur.index()[id] != h by {
                    cur.lemma_mirror_registered(s, id);
                }
                assert forall|id: u128| #[trigger] s.has_id(id) implies self.live(cur.index()[id])
                    && (self.children()[cur.index()[id]] == cur.children()[cur.index()[id]]
                    || self.children()[cur.index()[id]] == crate::forest::swapped(
                    cur.children()[cur.index()[id]],
                    hc,
                    hn,
                ) || self.children()[cur.index()[id]] == crate::engine::without(
                    cur.children()[cur.index()[id]],
                    hc,
                )) by {
                    let v = cur.index()[id];
                    cur.lemma_mirror_registered(s, id);
                    assert(!cur.carries(was, v)) by {
                        if cur.carries(was, v) {
                            let other = choose|other: u128|
                                was.has_id(other) && cur.index().contains_key(other)
                                    && #[trigger] cur.index()[other] == v;
                            assert(other != id);
                        }
                    }
                    assert(cur.live(v));
                    assert(self.children()[v] == crate::forest::swapped(cur.children()[v], hc, hn));
                }
                self.lemma_sibling_kept(cur, s, hc, hn, h);
                assert(cur.index().contains_key(s.id()));
                assert(self.same_entry(cur, s.id()));
                assert(self.children()[h][k] == list[k]);
            } else {
                assert(b.kids()[j] == now);
                assert(self.mirrors(now));
                assert(self.index().contains_key(now.id()));
                assert(list[j] == hc);
                assert(self.children()[h][j] == hn);
            }
        }
        assert(b.id() == node.id());
        assert(self.children()[h].len() == b.kids().len());
        assert(self.mirrors(b));
        assert forall|k: int, id: u128|
            j + 1 <= k < olds.len() && (#[trigger] olds[k]).has_id(id) implies #[trigger] self.same_entry(
            before,
            id,
        ) by {
            lemma_apart(node, target, k, j, id);
            lemma_apart(node, target, j, k, id);
            assert(self.same_entry(cur, id));
            assert(cur.same_entry(before, id));
        }
        assert forall|id: u128| !node.has_id(id) && !target.has_id(id) implies #[trigger] self.same_entry(
            before,
            id,
        ) by {
            assert(!was.has_id(id)) by {
                if was.has_id(id) {
                    assert(node.kids()[j].has_id(id));
                }
            }
            assert(!now.has_id(id)) by {
                if now.has_id(id) {
                    assert(target.kids()[j].has_id(id));
                }
            }
            assert(self.same_entry(cur, id));
            assert(cur.same_entry(before, id));
        }
        assert forall|x: u64| #[trigger] before.live(x) && !before.carries(node, x) implies self.live(
            x,
        ) && self.children()[x] == before.children()[x] by {
            assert(cur.live(x));
            assert(!cur.carries(was, x)) by {
                if cur.carries(was, x) {
                    let id = choose|id: u128|
                        was.has_id(id) && cur.index().contains_key(id) && #[trigger] cur.index()[id]
                            == x;
                    assert(olds[j].has_id(id));
                    assert(cur.same_entry(before, id));
                    assert(node.has_id(id));
                }
            }
            let mine = cur.children()[x];
            assert(!mine.contains(hc)) by {
                if mine.contains(hc) {
                    let k = choose|k: int| 0 <= k < mine.len() && mine[k] == hc;
                    assert(cur.parents()[cur.children()[x][k]] == Some(x));
                    assert(x == h);
                    assert(before.index()[node.id()] == x);
                }
            }
            crate::forest::lemma_swapped_absent(mine, hc, hn);
        }
    }
}


impl LayoutMapping {
    /// The way goes on over a child that was added.
    pub proof fn lemma_step_add(
        &self,
        cur: LayoutMapping,
        before: LayoutMapping,
        node: NodeModel,
        target: NodeModel,
        j: int,
    )
        requires
            cur.wf(),
            cur.under_way(before, node, target, j),
            same_tag(node, target),
            node.distinct_ids(),
            target.distinct_ids(),
            settled(node, target),
            node.kids().len() <= j < target.kids().len(),
            self.registers(cur, target.kids()[j]),
            self.grown(cur, cur.index()[node.id()], j, target.kids()[j]),
        ensures
            self.under_way(before, node, target, j + 1),
    {
        let olds = node.kids();
        let news = target.kids();
        let a = on_the_way(node, target, j);
        let b = on_the_way(node, target, j + 1);
        let h = cur.index()[node.id()];
        let now = news[j];
        let hn = self.index()[now.id()];
        assert(a.kids() == mixed(olds, news, j));
        assert(b.kids() == mixed(olds, news, j + 1));
        assert(b.kids() =~= a.kids().push(now));
        assert(node.has_id(node.id()));
        assert(now.has_id(now.id()));
        lemma_apart(node, target, j, j + 1, node.id());
        assert(now.distinct_ids());
        let list = cur.children()[h];
        assert(list.len() == j);
        assert(list.insert(j, hn) =~= list.push(hn));
        assert(a.id() == node.id());
        assert(cur.index().contains_key(node.id()));
        assert(!now.has_id(node.id()));
        assert(self.index().contains_key(node.id()) == cur.index().contains_key(node.id()));
        assert(self.index().contains_key(node.id()) && self.index()[node.id()] == h);
        assert forall|k: int| 0 <= k < b.kids().len() implies self.index().contains_key(
            (#[trigger] b.kids()[k]).id(),
        ) && self.children()[h][k] == self.index()[b.kids()[k].id()] && self.mirrors(b.kids()[k]) by {
            if k != j {
                let s = a.kids()[k];
                assert(b.kids()[k] == s);
                assert(s == news[k]);
                assert(cur.mirrors(s));
                assert(s.has_id(s.id()));
                assert forall|id: u128| #[trigger]
                    s.has_id(id) && cur.index().contains_key(id) implies self.index().contains_key(
                    id,
                ) && self.index()[id] == cur.index()[id] && self.live(self.index()[id])
                    && self.children()[self.index()[id]] == cur.children()[cur.index()[id]] by {
                    lemma_apart(node, target, k, j, id);
                    cur.lemma_mirror_registered(s, id);
                    let v = cur.index()[id];
                    assert(cur.live(v));
                    assert(news[k].has_id(id));
                    assert(!now.has_id(id));
                    assert(id != node.id());
                    assert(v != h);
                    assert(self.index().contains_key(id) == cur.index().contains_key(id));
                    assert(self.index()[id] == v);
                    assert(self.live(v) && self.children()[v] == cur.children()[v]);
                }
                self.lemma_mirrors_kept(cur, s);
                lemma_apart(node, target, k, j, s.id());
                assert(cur.index().contains_key(s.id()));
                assert(self.children()[h][k] == list[k]);
            } else {
                assert(b.kids()[j] == now);
                assert(self.mirrors(now));
            }
        }
        assert(b.id() == node.id());
        assert(self.children()[h].len() == b.kids().len());
        assert(self.mirrors(b));
        assert forall|id: u128| !node.has_id(id) && !target.has_id(id) implies #[trigger] self.same_entry(
            before,
            id,
        ) by {
            assert(!now.has_id(id)) by {
                if now.has_id(id) {
                    assert(target.kids()[j].has_id(id));
                }
            }
            assert(cur.same_entry(before, id));
        }
        assert forall|x: u64| #[trigger] before.live(x) && !before.carries(node, x) implies self.live(
            x,
        ) && self.children()[x] == before.children()[x] by {
            assert(cur.live(x));
            assert(x != h);
        }
    }

    /// The way goes on over a child that was removed.
    pub proof fn lemma_step_remove(
        &self,
        cur: LayoutMapping,
        before: LayoutMapping,
        node: NodeModel,
        target: NodeModel,
        j: int,
    )
        requires
            cur.wf(),
            cur.under_way(before, node, target, j),
            same_tag(node, target),
            node.distinct_ids(),
            target.distinct_ids(),
            settled(node, target),
            target.kids().len() <= j < node.kids().len(),
            self.shrunk(cur, node.kids()[j]),
            forall|id: u128| !node.kids()[j].has_id(id) ==> #[trigger] self.same_entry(cur, id),
            forall|id: u128|
                node.kids()[j].has_id(id) ==> !(#[trigger] self.index().contains_key(id)),
        ensures
            self.under_way(before, node, target, j + 1),
    {
        let olds = node.kids();
        let news = target.kids();
        let a = on_the_way(node, target, j);
        let b = on_the_way(node, target, j + 1);
        let h = cur.index()[node.id()];
        let was = olds[j];
        let hc = cur.index()[was.id()];
        let at = news.len() as int;
        assert(a.kids() == mixed(olds, news, j));
        assert(b.kids() == mixed(olds, news, j + 1));
        assert(a.kids()[at] == was);
        assert(b.kids() =~= a.kids().remove(at));
        assert(node.has_id(node.id()));
        assert(was.has_id(was.id()));
        lemma_apart(node, target, j, j + 1, node.id());
        assert(cur.mirrors(was));
        let list = cur.children()[h];
        assert(list[at] == hc);
        assert(cur.parents()[cur.children()[h][at]] == Some(h));
        assert(!cur.carries(was, h)) by {
            if cur.carries(was, h) {
                let id = choose|id: u128|
                    was.has_id(id) && cur.index().contains_key(id) && #[trigger] cur.index()[id]
                        == h;
                assert(id != node.id());
            }
        }
        assert(cur.live(h));
        assert(self.live(h));
        assert(self.children()[h] == crate::engine::without(list, hc));
        assert(list.no_duplicates()) by {
            assert forall|i: int, k: int|
                0 <= i < list.len() && 0 <= k < list.len() && i != k implies list[i] != list[k] by {
                if i < k {
                    assert(cur.children()[h][i] != cur.children()[h][k]);
                } else {
                    assert(cur.children()[h][k] != cur.children()[h][i]);
                }
            }
        }
        crate::forest::lemma_without_one(list, hc, at);
        assert(self.same_entry(cur, node.id()));
        assert forall|k: int| 0 <= k < b.kids().len() implies self.index().contains_key(
            (#[trigger] b.kids()[k]).id(),
        ) && self.children()[h][k] == self.index()[b.kids()[k].id()] && self.mirrors(b.kids()[k]) by {
            let k0 = if k < at { k } else { k + 1 };
            let s = a.kids()[k0];
            assert(b.kids()[k] == s);
            assert(cur.mirrors(s));
            assert(s.has_id(s.id()));
            let place = if k < at { k } else { k + 1 + j - at };
            assert(s == if k < at { news[k] } else { olds[place] });
            assert forall|id: u128| s.has_id(id) implies !was.has_id(id) && id != node.id() by {
                lemma_apart(node, target, place, j, id);
            }
            assert forall|id: u128| s.has_id(id) implies #[trigger] self.same_entry(cur, id) by {}
            assert forall|id: u128| #[trigger] s.has_id(id) implies cur.index()[id] != h by {
                cur.lemma_mirror_registered(s, id);
            }
            assert forall|id: u128| #[trigger] s.has_id(id) implies self.live(cur.index()[id]) && (
            self.children()[cur.index()[id]] == cur.children()[cur.index()[id]]
                || self.children()[cur.index()[id]] == crate::forest::swapped(
                cur.children()[cur.index()[id]],
                hc,
                hc,
            ) || self.children()[cur.index()[id]] == crate::engine::without(
                cur.children()[cur.index()[id]],
                hc,
            )) by {
                let v = cur.index()[id];
                cur.lemma_mirror_registered(s, id);
                assert(!cur.carries(was, v)) by {
                    if cur.carries(was, v) {
                        let other = choose|other: u128|
                            was.has_id(other) && cur.index().contains_key(other)
                                && #[trigger] cur.index()[other] == v;
                        assert(other != id);
                    }
                }
                assert(cur.live(v));
            }
            self.lemma_sibling_kept(cur, s, hc, hc, h);
            assert(cur.index().contains_key(s.id()));
            assert(self.same_entry(cur, s.id()));
            assert(self.children()[h][k] == list[k0]);
        }
        assert(b.id() == node.id());
        assert(self.children()[h].len() == b.kids().len());
        assert(self.mirrors(b));
        assert forall|k: int, id: u128|
            j + 1 <= k < olds.len() && (#[trigger] olds[k]).has_id(id) implies #[trigger] self.same_entry(
            before,
            id,
        ) by {
            lemma_apart(node, target, k, j, id);
            assert(self.same_entry(cur, id));
            assert(cur.same_entry(before, id));
        }
        assert forall|id: u128| !node.has_id(id) && !target.has_id(id) implies #[trigger] self.same_entry(
            before,
            id,
        ) by {
            assert(!was.has_id(id)) by {
                if was.has_id(id) {
                    assert(node.kids()[j].has_id(id));
                }
            }
            assert(self.same_entry(cur, id));
            assert(cur.same_entry(before, id));
        }
        assert forall|x: u64| #[trigger] before.live(x) && !before.carries(node, x) implies self.live(
            x,
        ) && self.children()[x] == before.children()[x] by {
            assert(cur.live(x));
            assert(!cur.carries(was, x)) by {
                if cur.carries(was, x) {
                    let id = choose|id: u128|
                        was.has_id(id) && cur.index().contains_key(id) && #[trigger] cur.index()[id]
                            == x;
                    assert(olds[j].has_id(id));
                    assert(cur.same_entry(before, id));
                    assert(node.has_id(id));
                }
            }
            let mine = cur.children()[x];
            assert(!mine.contains(hc)) by {
                if mine.contains(hc) {
                    let k = choose|k: int| 0 <= k < mine.len() && mine[k] == hc;
                    assert(cur.parents()[cur.children()[x][k]] == Some(x));
                    assert(x == h);
                    assert(before.index()[node.id()] == x);
                }
            }
            crate::forest::lemma_without_absent(mine, hc);
        }
    }
}


/// The child patch for the index `j`, where there is one.
pub open spec fn child_step(olds: Seq<NodeModel>, news: Seq<NodeModel>, j: int) -> PatchModel {
    if j < olds.len() && j < news.len() {
        PatchModel::PatchChild(j, Box::new(diff_spec(olds[j], news[j])->Some_0))
    } else if j < news.len() {
        PatchModel::AddChild(j, news[j])
    } else {
        PatchModel::RemoveChild(j)
    }
}

/// The first child patch after those for the indices below `n` is the one
/// for the next index that has one.
pub proof fn lemma_next_step(olds: Seq<NodeModel>, news: Seq<NodeModel>, n: int, top: int)
    requires
        0 <= n <= top,
        top == longer(olds.len() as int, news.len() as int),
        child_ops(olds, news, n).len() < child_ops(olds, news, top).len(),
    ensures
        n <= next_op(olds, news, n, top) < top,
        child_ops(olds, news, top)[child_ops(olds, news, n).len() as int] == child_step(
            olds,
            news,
            next_op(olds, news, n, top),
        ),
        child_ops(olds, news, next_op(olds, news, n, top) + 1).len() == child_ops(olds, news, n).len()
            + 1,
        next_op(olds, news, n, top) < olds.len() && next_op(olds, news, n, top) < news.len()
            ==> diff_spec(
            olds[next_op(olds, news, n, top)],
            news[next_op(olds, news, n, top)],
        ) is Some,
{
    lemma_next_op(olds, news, n, top);
    let j = next_op(olds, news, n, top);
    let shorter = child_ops(olds, news, j);
    let longer_ops = child_ops(olds, news, j + 1);
    assert(longer_ops == shorter.push(child_ops(olds, news, top)[shorter.len() as int]));
    assert(longer_ops[shorter.len() as int] == child_ops(olds, news, top)[shorter.len() as int]);
}

/// A composite diff of two elements is the change of attributes, if there
/// is one, followed by the child patches.
pub proof fn lemma_composite_diff(node: NodeModel, target: NodeModel, all: Seq<PatchModel>)
    requires
        diff_spec(node, target) == Some(PatchModel::Composite(all)),
    ensures
        same_tag(node, target),
        all.len() >= child_ops(
            node.kids(),
            target.kids(),
            longer(node.kids().len() as int, target.kids().len() as int),
        ).len(),
        all.len() <= child_ops(
            node.kids(),
            target.kids(),
            longer(node.kids().len() as int, target.kids().len() as int),
        ).len() + 1,
        forall|k: int|
            0 <= k < child_ops(
                node.kids(),
                target.kids(),
                longer(node.kids().len() as int, target.kids().len() as int),
            ).len() ==> #[trigger] all[k + all.len() - child_ops(
                node.kids(),
                target.kids(),
                longer(node.kids().len() as int, target.kids().len() as int),
            ).len()] == child_ops(
                node.kids(),
                target.kids(),
                longer(node.kids().len() as int, target.kids().len() as int),
            )[k],
        all.len() > child_ops(
            node.kids(),
            target.kids(),
            longer(node.kids().len() as int, target.kids().len() as int),
        ).len() ==> all[0] is ChangeAttributes,
{
}


/// What a composite diff from `node` to `target` is made of: elements
/// with the same tag, and the child patches at the end of the composite,
/// after a change of attributes at most.
pub open spec fn aims(node: NodeModel, target: NodeModel, all: Seq<PatchModel>) -> bool {
    let steps = child_ops(
        node.kids(),
        target.kids(),
        longer(node.kids().len() as int, target.kids().len() as int),
    );
    &&& same_tag(node, target)
    &&& node.distinct_ids()
    &&& target.distinct_ids()
    &&& settled(node, target)
    &&& steps.len() <= all.len() <= steps.len() + 1
    &&& forall|k: int|
        0 <= k < steps.len() ==> #[trigger] all[k + all.len() - steps.len()] == steps[k]
    &&& all.len() > steps.len() ==> all[0] is ChangeAttributes
}

impl LayoutMapping {
    /// On the way the node itself is registered.
    pub proof fn lemma_way_registered(
        &self,
        before: LayoutMapping,
        node: NodeModel,
        target: NodeModel,
        n: int,
    )
        requires
            self.under_way(before, node, target, n),
        ensures
            self.index().contains_key(node.id()),
    {
        assert(on_the_way(node, target, n).id() == node.id());
    }

    /// A step that leaves the layout tree and the index as they are leaves the way as it is.
    pub proof fn lemma_way_unchanged(
        &self,
        cur: LayoutMapping,
        before: LayoutMapping,
        node: NodeModel,
        target: NodeModel,
        n: int,
    )
        requires
            cur.under_way(before, node, target, n),
            self.taffy == cur.taffy,
            self.id_map == cur.id_map,
        ensures
            self.under_way(before, node, target, n),
    {
        let way = on_the_way(node, target, n);
        assert(self.children() == cur.children());
        assert(self.index() == cur.index());
        assert forall|id: u128| #[trigger]
            way.has_id(id) && cur.index().contains_key(id) implies self.index().contains_key(id)
            && self.index()[id] == cur.index()[id] && self.live(self.index()[id])
            && self.children()[self.index()[id]] == cur.children()[cur.index()[id]] by {
            cur.lemma_mirror_registered(way, id);
        }
        self.lemma_mirrors_kept(cur, way);
        assert forall|id: u128| !node.has_id(id) && !target.has_id(id) implies #[trigger] self.same_entry(
            before,
            id,
        ) by {
            assert(cur.same_entry(before, id));
        }
        assert forall|k: int, id: u128|
            n <= k < node.kids().len() && (#[trigger] node.kids()[k]).has_id(
                id,
            ) implies #[trigger] self.same_entry(before, id) by {
            assert(cur.same_entry(before, id));
        }
        assert forall|x: u64| #[trigger] before.live(x) && !before.carries(node, x) implies self.live(
            x,
        ) && self.children()[x] == before.children()[x] by {
            assert(cur.live(x));
        }
    }

    /// What holds before the step for the child at `j`: a patch of the
    /// child finds the layout tree ready for it, an added child finds its
    /// place at the end, and a removed child is registered with all below it.
    pub proof fn lemma_step_ahead(
        &self,
        before: LayoutMapping,
        node: NodeModel,
        target: NodeModel,
        j: int,
        step: PatchModel,
        goal: NodeModel,
    )
        requires
            self.wf(),
            self.under_way(before, node, target, j),
            same_tag(node, target),
            node.distinct_ids(),
            target.distinct_ids(),
            settled(node, target),
            0 <= j < longer(node.kids().len() as int, target.kids().len() as int),
            step == child_step(node.kids(), target.kids(), j),
            j < node.kids().len() && j < target.kids().len() ==> diff_spec(
                node.kids()[j],
                target.kids()[j],
            ) is Some,
            goal == if j < target.kids().len() {
                target.kids()[j]
            } else {
                node
            },
        ensures
            self.index().contains_key(node.id()),
            step is PatchChild ==> crate::layout::is_diff(step, node, goal) && self.ready(
                crate::layout::scope(node, step),
                goal,
            ) && crate::layout::scope(node, step) == node.kids()[j],
            step is AddChild ==> self.leaf_outcome(node, step)
                == Some(Ok::<(), crate::layout::LayoutError>(())),
            step is RemoveChild ==> self.leaf_outcome(node, step)
                == Some(Ok::<(), crate::layout::LayoutError>(()))
                && self.mirrors(node.kids()[j]),
    {
        let olds = node.kids();
        let news = target.kids();
        let way = on_the_way(node, target, j);
        assert(way.id() == node.id());
        assert(way.kids() == mixed(olds, news, j));
        lemma_apart(node, target, j, j + 1, node.id());
        if j < olds.len() && j < news.len() {
            let d = diff_spec(olds[j], news[j])->Some_0;
            lemma_diff_shape(olds[j], news[j]);
            assert(way.kids()[j] == olds[j]);
            assert(self.mirrors(olds[j]));
            assert(crate::layout::scope(olds[j], d) == olds[j]);
            assert(crate::layout::is_diff(d, olds[j], news[j]));
        } else if j < news.len() {
            assert(way.kids().len() == j);
        } else {
            let at = news.len() as int;
            assert(way.kids()[at] == olds[j]);
            assert(self.mirrors(olds[j]));
            assert forall|id: u128| olds[j].has_id(id) implies self.index().contains_key(id) by {
                self.lemma_mirror_registered(olds[j], id);
            }
        }
    }
}


impl LayoutMapping {
    /// The way goes on over the step for the child at `j`.
    pub proof fn lemma_step_done(
        &self,
        cur: LayoutMapping,
        before: LayoutMapping,
        node: NodeModel,
        target: NodeModel,
        j: int,
        step: PatchModel,
    )
        requires
            cur.wf(),
            cur.under_way(before, node, target, j),
            same_tag(node, target),
            node.distinct_ids(),
            target.distinct_ids(),
            settled(node, target),
            0 <= j < longer(node.kids().len() as int, target.kids().len() as int),
            step == child_step(node.kids(), target.kids(), j),
            step is PatchChild ==> self.follows(cur, node.kids()[j], target.kids()[j]),
            step is AddChild ==> self.registers(cur, target.kids()[j]) && self.grown(
                cur,
                cur.index()[node.id()],
                j,
                target.kids()[j],
            ),
            step is RemoveChild ==> self.shrunk(cur, node.kids()[j]) && (forall|id: u128|
                !node.kids()[j].has_id(id) ==> #[trigger] self.same_entry(cur, id)) && (forall|
                id: u128,
            |
                node.kids()[j].has_id(id) ==> !(#[trigger] self.index().contains_key(id))),
        ensures
            self.under_way(before, node, target, j + 1),
    {
        if j < node.kids().len() && j < target.kids().len() {
            self.lemma_step_patch(cur, before, node, target, j);
        } else if j < target.kids().len() {
            self.lemma_step_add(cur, before, node, target, j);
        } else {
            self.lemma_step_remove(cur, before, node, target, j);
        }
    }
}


/// Whether the identity `id` lies in a part of `old` that the diff to
/// `new` leaves alone: in a subtree without a diff, or at an element that
/// keeps its tag.
pub open spec fn kept(old: NodeModel, new: NodeModel, id: u128) -> bool
    decreases old,
{
    if diff_spec(old, new) is None {
        old.has_id(id)
    } else {
        match (old, new) {
            (
                NodeModel::Element { identity, tag, children, .. },
                NodeModel::Element { tag: tag2, children: children2, .. },
            ) => tag == tag2 && (identity == id || exists|i: int|
                0 <= i < children.len() && i < children2.len() && kept(
                    #[trigger] children[i],
                    children2[i],
                    id,
                )),
            _ => false,
        }
    }
}

/// A diff discards layout nodes of the old tree only, and builds layout
/// nodes of the new tree only.
pub proof fn lemma_diff_within(old: NodeModel, new: NodeModel, id: u128)
    requires
        diff_spec(old, new) is Some,
    ensures
        crate::layout::discards(old, diff_spec(old, new)->Some_0, id) ==> old.has_id(id),
        crate::layout::creates(old, diff_spec(old, new)->Some_0, id) ==> new.has_id(id),
    decreases old,
{
    let p = diff_spec(old, new)->Some_0;
    lemma_diff_shape(old, new);
    match p {
        PatchModel::Composite(all) => {
            lemma_composite_diff(old, new, all);
            let olds = old.kids();
            let news = new.kids();
            let top = longer(olds.len() as int, news.len() as int);
            let steps = child_ops(olds, news, top);
            if crate::layout::discards(old, p, id) {
                let k = choose|k: int|
                    0 <= k < all.len() && crate::layout::discards(old, #[trigger] all[k], id);
                if k >= all.len() - steps.len() {
                    let w = k - (all.len() - steps.len());
                    assert(all[w + all.len() - steps.len()] == steps[w]);
                    lemma_step_index(olds, news, top, w);
                    let j = step_index(steps[w]);
                    if j < olds.len() && j < news.len() {
                        lemma_diff_within(olds[j], news[j], id);
                    }
                    assert(olds[j].has_id(id));
                }
            }
            if crate::layout::creates(old, p, id) {
                let k = choose|k: int|
                    0 <= k < all.len() && crate::layout::creates(old, #[trigger] all[k], id);
                if k >= all.len() - steps.len() {
                    let w = k - (all.len() - steps.len());
                    assert(all[w + all.len() - steps.len()] == steps[w]);
                    lemma_step_index(olds, news, top, w);
                    let j = step_index(steps[w]);
                    if j < olds.len() && j < news.len() {
                        lemma_diff_within(olds[j], news[j], id);
                    }
                    assert(news[j].has_id(id));
                }
            }
        },
        _ => {},
    }
}

/// The child index that a child patch addresses.
pub open spec fn step_index(step: PatchModel) -> int {
    match step {
        PatchModel::PatchChild(i, _) => i,
        PatchModel::AddChild(i, _) => i,
        PatchModel::RemoveChild(i) => i,
        _ => 0,
    }
}

/// Every child patch of a diff is the one for the index that it addresses.
pub proof fn lemma_step_index(olds: Seq<NodeModel>, news: Seq<NodeModel>, n: int, w: int)
    requires
        0 <= n <= longer(olds.len() as int, news.len() as int),
        0 <= w < child_ops(olds, news, n).len(),
    ensures
        0 <= step_index(child_ops(olds, news, n)[w]) < n,
        child_ops(olds, news, n)[w] == child_step(
            olds,
            news,
            step_index(child_ops(olds, news, n)[w]),
        ),
        step_index(child_ops(olds, news, n)[w]) < olds.len() && step_index(
            child_ops(olds, news, n)[w],
        ) < news.len() ==> diff_spec(
            olds[step_index(child_ops(olds, news, n)[w])],
            news[step_index(child_ops(olds, news, n)[w])],
        ) is Some,
    decreases n,
{
    if w < child_ops(olds, news, n - 1).len() {
        lemma_step_index(olds, news, n - 1, w);
    }
}

/// What a diff leaves alone it neither discards nor builds.
pub proof fn lemma_kept_untouched(old: NodeModel, new: NodeModel, id: u128)
    requires
        old.distinct_ids(),
        new.distinct_ids(),
        settled(old, new),
        kept(old, new, id),
        diff_spec(old, new) is Some,
    ensures
        !crate::layout::discards(old, diff_spec(old, new)->Some_0, id),
        !crate::layout::creates(old, diff_spec(old, new)->Some_0, id),
    decreases old,
{
    let p = diff_spec(old, new)->Some_0;
    lemma_diff_shape(old, new);
    match p {
        PatchModel::Composite(all) => {
            lemma_composite_diff(old, new, all);
            let olds = old.kids();
            let news = new.kids();
            let top = longer(olds.len() as int, news.len() as int);
            let steps = child_ops(olds, news, top);
            assert forall|k: int| 0 <= k < all.len() implies !crate::layout::discards(
                old,
                #[trigger] all[k],
                id,
            ) && !crate::layout::creates(old, all[k], id) by {
                if k >= all.len() - steps.len() {
                    let w = k - (all.len() - steps.len());
                    assert(all[w + all.len() - steps.len()] == steps[w]);
                    lemma_step_index(olds, news, top, w);
                    let j = step_index(steps[w]);
                    if id == old.id() {
                        lemma_apart(old, new, j, j + 1, id);
                        if j < olds.len() && j < news.len() {
                            lemma_diff_within(olds[j], news[j], id);
                        }
                    } else {
                        let i = choose|i: int|
                            0 <= i < olds.len() && i < news.len() && kept(
                                #[trigger] olds[i],
                                news[i],
                                id,
                            );
                        lemma_kept_inside(olds[i], news[i], id);
                        if i == j {
                            lemma_apart(old, new, j, j + 1, id);
                            lemma_kept_untouched(olds[i], news[i], id);
                        } else {
                            lemma_apart(old, new, j, i, id);
                            if j < olds.len() && j < news.len() {
                                lemma_diff_within(olds[j], news[j], id);
                            }
                        }
                    }
                }
            }
        },
        _ => {},
    }
}

/// What a diff leaves alone is an identity of the old tree.
pub proof fn lemma_kept_inside(old: NodeModel, new: NodeModel, id: u128)
    requires
        kept(old, new, id),
    ensures
        old.has_id(id),
    decreases old,
{
    if diff_spec(old, new) is Some {
        match old {
            NodeModel::Element { identity, children, .. } => {
                if identity != id {
                    let i = choose|i: int|
                        0 <= i < children.len() && i < new.kids().len() && kept(
                            #[trigger] children[i],
                            new.kids()[i],
                            id,
                        );
                    lemma_kept_inside(children[i], new.kids()[i], id);
                }
            },
            NodeModel::Text { .. } => {},
        }
    }
}

/// Trees with the same identities at the same places have the same identities.
pub proof fn lemma_same_ids_has(a: NodeModel, b: NodeModel, id: u128)
    requires
        same_ids(a, b),
    ensures
        a.has_id(id) == b.has_id(id),
    decreases a,
{
    match a {
        NodeModel::Element { children, .. } => {
            let kids = b.kids();
            if a.has_id(id) && a.id() != id {
                let i = choose|i: int| 0 <= i < children.len() && (#[trigger] children[i]).has_id(id);
                lemma_same_ids_has(children[i], kids[i], id);
                assert(kids[i].has_id(id));
            }
            if b.has_id(id) && b.id() != id {
                let i = choose|i: int| 0 <= i < kids.len() && (#[trigger] kids[i]).has_id(id);
                assert(same_ids(children[i], kids[i]));
                lemma_same_ids_has(children[i], kids[i], id);
                assert(children[i].has_id(id));
            }
        },
        NodeModel::Text { .. } => {
            match b {
                NodeModel::Element { children, .. } => {
                    assert(children.len() == 0);
                },
                NodeModel::Text { .. } => {},
            }
        },
    }
}

/// Having the same identities at the same places goes both ways.
pub proof fn lemma_same_ids_symmetric(a: NodeModel, b: NodeModel)
    requires
        same_ids(a, b),
    ensures
        same_ids(b, a),
    decreases a,
{
    match b {
        NodeModel::Element { children, .. } => {
            assert forall|i: int| 0 <= i < children.len() implies same_ids(
                #[trigger] children[i],
                a.kids()[i],
            ) by {
                match a {
                    NodeModel::Element { children: mine, .. } => {
                        assert(same_ids(mine[i], children[i]));
                        lemma_same_ids_symmetric(mine[i], children[i]);
                    },
                    NodeModel::Text { .. } => {},
                }
            }
        },
        NodeModel::Text { .. } => {},
    }
}

/// Having the same identities at the same places carries over.
pub proof fn lemma_same_ids_transitive(a: NodeModel, b: NodeModel, c: NodeModel)
    requires
        same_ids(a, b),
        same_ids(b, c),
    ensures
        same_ids(a, c),
    decreases a,
{
    match a {
        NodeModel::Element { children, .. } => {
            assert forall|i: int| 0 <= i < children.len() implies same_ids(
                #[trigger] children[i],
                c.kids()[i],
            ) by {
                match b {
                    NodeModel::Element { children: middle, .. } => {
                        assert(same_ids(children[i], middle[i]));
                        assert(same_ids(middle[i], c.kids()[i]));
                        lemma_same_ids_transitive(children[i], middle[i], c.kids()[i]);
                    },
                    NodeModel::Text { .. } => {},
                }
            }
        },
        NodeModel::Text { .. } => {},
    }
}

/// Every index below `n` that has a child patch has it among the child patches.
pub proof fn lemma_step_present(olds: Seq<NodeModel>, news: Seq<NodeModel>, n: int, i: int)
    requires
        0 <= i < n <= longer(olds.len() as int, news.len() as int),
        !(i < olds.len() && i < news.len() && diff_spec(olds[i], news[i]) is None),
    ensures
        exists|w: int|
            0 <= w < child_ops(olds, news, n).len() && #[trigger] child_ops(olds, news, n)[w]
                == child_step(olds, news, i),
    decreases n,
{
    let ops = child_ops(olds, news, n);
    if i == n - 1 {
        assert(ops[ops.len() - 1] == child_step(olds, news, i));
    } else {
        lemma_step_present(olds, news, n - 1, i);
        let rest = child_ops(olds, news, n - 1);
        let w = choose|w: int| 0 <= w < rest.len() && #[trigger] rest[w] == child_step(olds, news, i);
        lemma_child_ops_prefix(olds, news, n - 1, n);
        assert(ops[w] == rest[w]);
    }
}

/// Two trees to which the diff from one tree is the same, and which are
/// settled on that tree, have the same identities at the same places.
pub proof fn lemma_targets_agree(node: NodeModel, first: NodeModel, second: NodeModel)
    requires
        diff_spec(node, first) is Some,
        diff_spec(node, first) == diff_spec(node, second),
        settled(node, first),
        settled(node, second),
    ensures
        same_ids(first, second),
    decreases node,
{
    let p = diff_spec(node, first)->Some_0;
    lemma_diff_shape(node, first);
    lemma_diff_shape(node, second);
    match p {
        PatchModel::Composite(all) => {
            lemma_composite_diff(node, first, all);
            lemma_composite_diff(node, second, all);
            let olds = node.kids();
            let a = first.kids();
            let b = second.kids();
            let top_a = longer(olds.len() as int, a.len() as int);
            let top_b = longer(olds.len() as int, b.len() as int);
            let ka = child_ops(olds, a, top_a);
            let kb = child_ops(olds, b, top_b);
            // The child patches are the same list.
            if ka.len() > 0 {
                lemma_step_index(olds, a, top_a, 0);
                assert(all[0 + all.len() - ka.len()] == ka[0]);
            }
            if kb.len() > 0 {
                lemma_step_index(olds, b, top_b, 0);
                assert(all[0 + all.len() - kb.len()] == kb[0]);
            }
            assert(ka.len() == kb.len());
            assert forall|w: int| 0 <= w < ka.len() implies ka[w] == kb[w] by {
                assert(all[w + all.len() - ka.len()] == ka[w]);
                assert(all[w + all.len() - kb.len()] == kb[w]);
            }
            assert(ka =~= kb);
            // Both trees have as many children.
            lemma_lengths_agree(olds, a, b);
            lemma_lengths_agree(olds, b, a);
            assert(first.id() == second.id());
            assert forall|i: int| 0 <= i < a.len() implies same_ids(#[trigger] a[i], b[i]) by {
                if i < olds.len() {
                    assert(settled(olds[i], a[i]));
                    assert(settled(olds[i], b[i]));
                    if diff_spec(olds[i], a[i]) is None {
                        lemma_no_diff_same_ids(olds[i], a[i]);
                        if diff_spec(olds[i], b[i]) is Some {
                            lemma_step_present(olds, b, top_b, i);
                            let w = choose|w: int|
                                0 <= w < kb.len() && #[trigger] kb[w] == child_step(olds, b, i);
                            lemma_step_index(olds, a, top_a, w);
                        }
                        lemma_no_diff_same_ids(olds[i], b[i]);
                        lemma_same_ids_symmetric(olds[i], a[i]);
                        lemma_same_ids_transitive(a[i], olds[i], b[i]);
                    } else {
                        lemma_step_present(olds, a, top_a, i);
                        let w = choose|w: int|
                            0 <= w < ka.len() && #[trigger] ka[w] == child_step(olds, a, i);
                        lemma_step_index(olds, b, top_b, w);
                        assert(kb[w] == child_step(olds, b, i));
                        lemma_targets_agree(olds[i], a[i], b[i]);
                    }
                } else {
                    lemma_step_present(olds, a, top_a, i);
                    let w = choose|w: int|
                        0 <= w < ka.len() && #[trigger] ka[w] == child_step(olds, a, i);
                    lemma_step_index(olds, b, top_b, w);
                    assert(kb[w] == child_step(olds, b, i));
                    lemma_same_ids_reflexive(a[i]);
                }
            }
            match first {
                NodeModel::Element { children, .. } => {
                    assert(children == a);
                },
                NodeModel::Text { .. } => {},
            }
        },
        _ => {
            lemma_same_ids_reflexive(first);
        },
    }
}

/// Of two new child lists with the same child patches from one old list,
/// the first is no shorter than the second.
proof fn lemma_lengths_agree(olds: Seq<NodeModel>, short: Seq<NodeModel>, long: Seq<NodeModel>)
    requires
        child_ops(olds, short, longer(olds.len() as int, short.len() as int)) == child_ops(
            olds,
            long,
            longer(olds.len() as int, long.len() as int),
        ),
    ensures
        short.len() >= long.len(),
{
    let top_s = longer(olds.len() as int, short.len() as int);
    let top_l = longer(olds.len() as int, long.len() as int);
    let ks = child_ops(olds, short, top_s);
    let kl = child_ops(olds, long, top_l);
    let i = short.len() as int;
    if short.len() >= long.len() {
    } else if i < olds.len() {
        // The shorter list has the child at `i` removed; the longer one has it patched or kept.
        lemma_step_present(olds, short, top_s, i);
        let w = choose|w: int| 0 <= w < ks.len() && #[trigger] ks[w] == child_step(olds, short, i);
        lemma_step_index(olds, long, top_l, w);
    } else {
        // The longer list has a child added at `i`; the shorter one ends before it.
        lemma_step_present(olds, long, top_l, i);
        let w = choose|w: int| 0 <= w < kl.len() && #[trigger] kl[w] == child_step(olds, long, i);
        lemma_step_index(olds, short, top_s, w);
    }
}

/// The node that a patch works on has the same diff to every tree that the patch is a diff to.
pub proof fn lemma_is_diff(patch: PatchModel, node: NodeModel, target: NodeModel)
    requires
        crate::layout::is_diff(patch, node, target),
    ensures
        diff_spec(crate::layout::scope(node, patch), target) is Some,
        forall|other: NodeModel|
            crate::layout::is_diff(patch, node, other) ==> diff_spec(
                crate::layout::scope(node, patch),
                other,
            ) == diff_spec(crate::layout::scope(node, patch), target),
    decreases patch,
{
    match patch {
        PatchModel::PatchChild(i, sub) => {
            lemma_is_diff(*sub, node.kids()[i], target);
            assert(crate::layout::scope(node, patch) == crate::layout::scope(node.kids()[i], *sub));
            assert forall|other: NodeModel|
                crate::layout::is_diff(patch, node, other) implies diff_spec(
                crate::layout::scope(node, patch),
                other,
            ) == diff_spec(crate::layout::scope(node, patch), target) by {
                assert(crate::layout::is_diff(*sub, node.kids()[i], other));
            }
        },
        _ => {},
    }
}

impl LayoutMapping {
    /// A layout tree that has followed the change to a tree has followed
    /// the change to every tree with the same identities at the same places.
    pub proof fn lemma_follows_same_ids(
        &self,
        before: LayoutMapping,
        node: NodeModel,
        target: NodeModel,
        other: NodeModel,
    )
        requires
            self.follows(before, node, target),
            same_ids(target, other),
        ensures
            self.follows(before, node, other),
    {
        self.lemma_mirrors_same_ids(target, other);
        assert forall|id: u128| !node.has_id(id) && !other.has_id(id) implies #[trigger] self.same_entry(
            before,
            id,
        ) by {
            lemma_same_ids_has(target, other, id);
        }
    }
}

} // verus!
