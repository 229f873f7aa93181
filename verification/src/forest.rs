//! Facts about handle lists and about layout trees that mirror a document tree.
use vstd::prelude::*;
use crate::engine::{children_without, parents_without, rooted, without};
use crate::layout::LayoutMapping;
use crate::vdom::NodeModel;

verus! {

/// Child lists, parents and depths form a forest: a node is among the
/// children of its parent and of no other node, no child list holds a node
/// twice, and every node lies deeper than its parent.
pub open spec fn is_forest(
    children: Map<u64, Seq<u64>>,
    parents: Map<u64, Option<u64>>,
    depth: Map<u64, nat>,
) -> bool {
    &&& forall|h: u64| children.contains_key(h) <==> parents.contains_key(h)
    &&& forall|p: u64, i: int|
        children.contains_key(p) && 0 <= i < children[p].len() ==> parents.contains_key(
            #[trigger] children[p][i],
        ) && parents[children[p][i]] == Some(p)
    &&& forall|x: u64|
        parents.contains_key(x) && (#[trigger] parents[x]) is Some ==> children.contains_key(
            parents[x]->0,
        ) && children[parents[x]->0].contains(x) && depth[parents[x]->0] < depth[x]
    &&& forall|p: u64, i: int, j: int|
        children.contains_key(p) && 0 <= i < j < children[p].len() ==> #[trigger] children[p][i]
            != #[trigger] children[p][j]
}

/// Every registered identity has a live layout node of its own.
pub open spec fn is_index(index: Map<u128, u64>, children: Map<u64, Seq<u64>>) -> bool {
    &&& forall|id: u128| index.contains_key(id) ==> children.contains_key(#[trigger] index[id])
    &&& forall|a: u128, b: u128|
        index.contains_key(a) && index.contains_key(b) && a != b ==> #[trigger] index[a]
            != #[trigger] index[b]
}

/// In a forest, following parents from a live node ends at a root.
pub proof fn lemma_rooted(parents: Map<u64, Option<u64>>, depth: Map<u64, nat>, h: u64)
    requires
        parents.contains_key(h),
        forall|x: u64|
            parents.contains_key(x) && (#[trigger] parents[x]) is Some ==> parents.contains_key(
                parents[x]->0,
            ) && depth[parents[x]->0] < depth[x],
    ensures
        rooted(parents, h, depth[h]),
    decreases depth[h],
{
    match parents[h] {
        Some(p) => {
            lemma_rooted(parents, depth, p);
            lemma_rooted_longer(parents, p, depth[p], (depth[h] - 1) as nat);
        },
        None => {},
    }
}

/// A way to the root of `n` steps at most is one of `m` steps at most, for any larger `m`.
pub proof fn lemma_rooted_longer(parents: Map<u64, Option<u64>>, h: u64, n: nat, m: nat)
    requires
        rooted(parents, h, n),
        n <= m,
    ensures
        rooted(parents, h, m),
    decreases n,
{
    match parents[h] {
        Some(p) => {
            lemma_rooted_longer(parents, p, (n - 1) as nat, (m - 1) as nat);
        },
        None => {},
    }
}

/// A list without `h` holds what the list held but `h`, and is free of
/// duplicates if the list was.
pub proof fn lemma_without(s: Seq<u64>, h: u64)
    ensures
        forall|c: u64| #[trigger] without(s, h).contains(c) <==> s.contains(c) && c != h,
        s.no_duplicates() ==> without(s, h).no_duplicates(),
    decreases s.len(),
{
    reveal(Seq::filter);
    if s.len() > 0 {
        let rest = s.drop_last();
        lemma_without(rest, h);
        let sub = without(rest, h);
        let out = without(s, h);
        assert(out == if s.last() != h {
            sub.push(s.last())
        } else {
            sub
        });
        assert forall|c: u64| #[trigger] out.contains(c) <==> s.contains(c) && c != h by {
            if out.contains(c) {
                let w = choose|w: int| 0 <= w < out.len() && out[w] == c;
                if w < sub.len() {
                    assert(sub.contains(sub[w]));
                    let v = choose|v: int| 0 <= v < rest.len() && rest[v] == c;
                    assert(s[v] == c);
                } else {
                    assert(s[s.len() - 1] == c);
                }
            }
            if s.contains(c) && c != h {
                let v = choose|v: int| 0 <= v < s.len() && s[v] == c;
                if v < rest.len() {
                    assert(rest[v] == c);
                    assert(rest.contains(c));
                    assert(sub.contains(c));
                    let w = choose|w: int| 0 <= w < sub.len() && sub[w] == c;
                    assert(out[w] == c);
                } else {
                    assert(out[out.len() - 1] == c);
                }
            }
        }
        if s.no_duplicates() {
            assert(rest.no_duplicates()) by {
                assert forall|i: int, j: int|
                    0 <= i < rest.len() && 0 <= j < rest.len() && i != j implies rest[i]
                    != rest[j] by {
                    assert(rest[i] == s[i] && rest[j] == s[j]);
                }
            }
            assert forall|i: int, j: int|
                0 <= i < out.len() && 0 <= j < out.len() && i != j implies out[i] != out[j] by {
                if i < sub.len() && j < sub.len() {
                } else if i < sub.len() {
                    assert(sub.contains(sub[i]));
                    let w = choose|w: int| 0 <= w < rest.len() && rest[w] == sub[i];
                    assert(s[w] == rest[w]);
                } else {
                    assert(sub.contains(sub[j]));
                    let w = choose|w: int| 0 <= w < rest.len() && rest[w] == sub[j];
                    assert(s[w] == rest[w]);
                }
            }
        }
    } else {
        assert(without(s, h) =~= s);
    }
}

/// A forest stays a forest when the engine drops one of its nodes.
pub proof fn lemma_forest_without(
    children: Map<u64, Seq<u64>>,
    parents: Map<u64, Option<u64>>,
    depth: Map<u64, nat>,
    h: u64,
)
    requires
        is_forest(children, parents, depth),
        children.contains_key(h),
    ensures
        is_forest(children_without(children, parents, h), parents_without(children, parents, h), depth),
        forall|x: u64|
            children.contains_key(x) && x != h && parents[h] != Some(x) ==> #[trigger] children_without(
                children,
                parents,
                h,
            )[x] == children[x],
{
    let ch2 = children_without(children, parents, h);
    let par2 = parents_without(children, parents, h);
    assert forall|p: u64| children.contains_key(p) && p != h implies (forall|c: u64|
        ch2[p].contains(c) <==> children[p].contains(c) && c != h) && ch2[p].no_duplicates() by {
        assert(children[p].no_duplicates()) by {
            assert forall|i: int, j: int|
                0 <= i < children[p].len() && 0 <= j < children[p].len() && i != j implies children[p][i]
                != children[p][j] by {
                if i < j {
                    assert(children[p][i] != children[p][j]);
                } else {
                    assert(children[p][j] != children[p][i]);
                }
            }
        }
        if parents[h] == Some(p) {
            lemma_without(children[p], h);
        } else {
            assert forall|c: u64| ch2[p].contains(c) <==> children[p].contains(c) && c != h by {
                if children[p].contains(c) && c == h {
                    let w = choose|w: int| 0 <= w < children[p].len() && children[p][w] == c;
                    assert(parents[children[p][w]] == Some(p));
                }
            }
        }
    }
    assert forall|p: u64, i: int| ch2.contains_key(p) && 0 <= i < ch2[p].len() implies par2.contains_key(
        #[trigger] ch2[p][i],
    ) && par2[ch2[p][i]] == Some(p) by {
        let c = ch2[p][i];
        assert(ch2[p].contains(c));
        assert(children[p].contains(c) && c != h);
        let w = choose|w: int| 0 <= w < children[p].len() && children[p][w] == c;
        assert(parents[children[p][w]] == Some(p));
        if children[h].contains(c) {
            let v = choose|v: int| 0 <= v < children[h].len() && children[h][v] == c;
            assert(parents[children[h][v]] == Some(h));
        }
    }
    assert forall|x: u64| par2.contains_key(x) && (#[trigger] par2[x]) is Some implies ch2.contains_key(
        par2[x]->0,
    ) && ch2[par2[x]->0].contains(x) && depth[par2[x]->0] < depth[x] by {
        assert(parents[x] is Some);
        let q = parents[x]->0;
        assert(children[q].contains(x));
        assert(q != h);
    }
    assert forall|p: u64, i: int, j: int|
        ch2.contains_key(p) && 0 <= i < j < ch2[p].len() implies #[trigger] ch2[p][i]
        != #[trigger] ch2[p][j] by {
        assert(ch2[p].no_duplicates());
    }
}


/// `list` with `to` wherever it held `h`.
pub open spec fn swapped(list: Seq<u64>, h: u64, to: u64) -> Seq<u64> {
    Seq::new(
        list.len(),
        |i: int|
            if list[i] == h {
                to
            } else {
                list[i]
            },
    )
}

/// `list` without the first `n` handles of `doomed`.
pub open spec fn purged(list: Seq<u64>, doomed: Seq<u64>, n: int) -> Seq<u64>
    decreases n,
{
    if n <= 0 {
        list
    } else {
        without(purged(list, doomed, n - 1), doomed[n - 1])
    }
}

/// Taking out a handle that a list does not hold changes nothing.
pub proof fn lemma_without_absent(s: Seq<u64>, h: u64)
    requires
        !s.contains(h),
    ensures
        without(s, h) == s,
    decreases s.len(),
{
    reveal(Seq::filter);
    if s.len() > 0 {
        let rest = s.drop_last();
        assert(!rest.contains(h)) by {
            if rest.contains(h) {
                let w = choose|w: int| 0 <= w < rest.len() && rest[w] == h;
                assert(s[w] == h);
            }
        }
        lemma_without_absent(rest, h);
        assert(s[s.len() - 1] != h);
        assert(without(s, h) == without(rest, h).push(s.last()));
        assert(rest.push(s.last()) =~= s);
    } else {
        assert(without(s, h) =~= s);
    }
}

/// Taking out a handle that a list without duplicates holds at `at` removes that entry.
pub proof fn lemma_without_one(s: Seq<u64>, h: u64, at: int)
    requires
        s.no_duplicates(),
        0 <= at < s.len(),
        s[at] == h,
    ensures
        without(s, h) == s.remove(at),
    decreases s.len(),
{
    reveal(Seq::filter);
    let rest = s.drop_last();
    assert(rest.no_duplicates()) by {
        assert forall|i: int, j: int|
            0 <= i < rest.len() && 0 <= j < rest.len() && i != j implies rest[i] != rest[j] by {
            assert(rest[i] == s[i] && rest[j] == s[j]);
        }
    }
    if at == s.len() - 1 {
        assert(!rest.contains(h)) by {
            if rest.contains(h) {
                let w = choose|w: int| 0 <= w < rest.len() && rest[w] == h;
                assert(s[w] == h);
            }
        }
        lemma_without_absent(rest, h);
        assert(without(s, h) == without(rest, h));
        assert(s.remove(at) =~= rest);
    } else {
        assert(rest[at] == h);
        lemma_without_one(rest, h, at);
        assert(s.last() != h);
        assert(without(s, h) == without(rest, h).push(s.last()));
        assert(rest.remove(at).push(s.last()) =~= s.remove(at));
    }
}

/// Purging handles that a list does not hold changes nothing.
pub proof fn lemma_purged_absent(list: Seq<u64>, doomed: Seq<u64>, n: int)
    requires
        0 <= n <= doomed.len(),
        forall|j: int| 0 <= j < n ==> !list.contains(#[trigger] doomed[j]),
    ensures
        purged(list, doomed, n) == list,
    decreases n,
{
    if n > 0 {
        lemma_purged_absent(list, doomed, n - 1);
        lemma_without_absent(list, doomed[n - 1]);
    }
}

/// Purging handles of which a list without duplicates holds one, at `at`, removes that entry.
pub proof fn lemma_purged_one(list: Seq<u64>, doomed: Seq<u64>, n: int, at: int)
    requires
        list.no_duplicates(),
        0 <= n <= doomed.len(),
        0 <= at < list.len(),
        forall|j: int, k: int| 0 <= j < k < doomed.len() ==> doomed[j] != doomed[k],
        exists|j: int| 0 <= j < n && doomed[j] == list[at],
        forall|j: int, k: int|
            0 <= j < n && 0 <= k < list.len() && k != at ==> #[trigger] doomed[j] != #[trigger] list[k],
    ensures
        purged(list, doomed, n) == list.remove(at),
    decreases n,
{
    let last = doomed[n - 1];
    if last == list[at] {
        assert forall|j: int| 0 <= j < n - 1 implies !list.contains(#[trigger] doomed[j]) by {
            if list.contains(doomed[j]) {
                let w = choose|w: int| 0 <= w < list.len() && list[w] == doomed[j];
                if w != at {
                    assert(doomed[j] != list[w]);
                }
            }
        }
        lemma_purged_absent(list, doomed, n - 1);
        lemma_without_one(list, last, at);
    } else {
        let w = choose|j: int| 0 <= j < n && doomed[j] == list[at];
        lemma_purged_one(list, doomed, n - 1, at);
        let shorter = list.remove(at);
        assert(!shorter.contains(last)) by {
            if shorter.contains(last) {
                let k = choose|k: int| 0 <= k < shorter.len() && shorter[k] == last;
                let k0 = if k < at { k } else { k + 1 };
                assert(list[k0] == last);
                assert(doomed[n - 1] != list[k0]);
            }
        }
        lemma_without_absent(shorter, last);
    }
}

/// Swapping a handle that a list does not hold changes nothing.
pub proof fn lemma_swapped_absent(list: Seq<u64>, h: u64, to: u64)
    requires
        !list.contains(h),
    ensures
        swapped(list, h, to) == list,
{
    assert forall|i: int| 0 <= i < list.len() implies list[i] != h by {
        assert(list.contains(list[i]));
    }
    assert(swapped(list, h, to) =~= list);
}

impl LayoutMapping {
    /// Every node of a mirrored tree is registered with a live layout node.
    pub proof fn lemma_mirror_registered(&self, node: NodeModel, id: u128)
        requires
            self.mirrors(node),
            node.has_id(id),
        ensures
            self.index().contains_key(id),
            self.live(self.index()[id]),
            self.carries(node, self.index()[id]),
        decreases node,
    {
        if node.id() != id {
            match node {
                NodeModel::Element { children, .. } => {
                    let i = choose|i: int|
                        0 <= i < children.len() && (#[trigger] children[i]).has_id(id);
                    self.lemma_mirror_registered(children[i], id);
                },
                NodeModel::Text { .. } => {},
            }
        }
    }

    /// In a mirrored tree the children of a layout node are layout nodes of the tree.
    pub proof fn lemma_mirror_children_held(&self, node: NodeModel, id: u128, k: int)
        requires
            self.mirrors(node),
            node.has_id(id),
            0 <= k < self.children()[self.index()[id]].len(),
            forall|a: u128, b: u128|
                self.index().contains_key(a) && self.index().contains_key(b) && a != b
                    ==> #[trigger] self.index()[a] != #[trigger] self.index()[b],
        ensures
            self.carries(node, self.children()[self.index()[id]][k]),
        decreases node,
    {
        match node {
            NodeModel::Element { identity, children, .. } => {
                if identity == id {
                    let c = children[k];
                    assert(c.has_id(c.id()));
                    assert(node.has_id(c.id()));
                } else {
                    let i = choose|i: int|
                        0 <= i < children.len() && (#[trigger] children[i]).has_id(id);
                    self.lemma_mirror_children_held(children[i], id, k);
                    let inner = choose|inner: u128|
                        children[i].has_id(inner) && self.index().contains_key(inner)
                            && #[trigger] self.index()[inner] == self.children()[self.index()[id]][k];
                    assert(node.has_id(inner));
                }
            },
            NodeModel::Text { .. } => {},
        }
    }

    /// In a mirrored tree the parent of every layout node but that of the
    /// root is a layout node of the tree, and lies deeper than the parents
    /// of the root.
    pub proof fn lemma_mirror_parent_inside(&self, node: NodeModel, id: u128)
        requires
            self.wf(),
            self.mirrors(node),
            node.has_id(id),
            self.index()[id] != self.index()[node.id()],
        ensures
            self.parents()[self.index()[id]] is Some,
            self.carries(node, self.parents()[self.index()[id]]->0),
            self.depths()[self.index()[id]] > self.depths()[self.index()[node.id()]],
        decreases node,
    {
        match node {
            NodeModel::Element { identity, children, .. } => {
                let h = self.index()[identity];
                let i = choose|i: int|
                    0 <= i < children.len() && (#[trigger] children[i]).has_id(id);
                let c = children[i];
                let hc = self.index()[c.id()];
                assert(self.children()[h][i] == hc);
                assert(self.parents()[self.children()[h][i]] == Some(h));
                assert(node.has_id(identity));
                assert(self.parents()[hc] is Some);
                if self.index()[id] != hc {
                    self.lemma_mirror_parent_inside(c, id);
                    let inner = choose|inner: u128|
                        c.has_id(inner) && self.index().contains_key(inner)
                            && #[trigger] self.index()[inner] == self.parents()[self.index()[id]]->0;
                    assert(node.has_id(inner));
                }
            },
            NodeModel::Text { .. } => {},
        }
    }
}


impl LayoutMapping {
    /// The layout tree `self` has followed the change from `node` to
    /// `target`: it mirrors `target`; the index is as in `before` outside
    /// the identities of the two trees; and every layout node of `before`
    /// outside the subtree of `node` is still there, with the children it
    /// had, but for the root of the subtree, which has given way to that of
    /// `target`. That root is the old one or a layout node that was not live.
    pub open spec fn follows(&self, before: LayoutMapping, node: NodeModel, target: NodeModel) -> bool {
        &&& self.mirrors(target)
        &&& forall|id: u128|
            !node.has_id(id) && !target.has_id(id) ==> #[trigger] self.same_entry(before, id)
        &&& forall|x: u64| #[trigger]
            before.live(x) && !before.carries(node, x) ==> self.live(x) && self.children()[x]
                == swapped(
                before.children()[x],
                before.index()[node.id()],
                self.index()[target.id()],
            )
        &&& (self.index()[target.id()] == before.index()[node.id()] || !before.live(
            self.index()[target.id()],
        ))
    }

    /// Outside a mirrored subtree, a child list holds no layout node of the
    /// subtree but its root.
    pub proof fn lemma_outside_lists(&self, node: NodeModel, x: u64, k: int)
        requires
            self.wf(),
            self.mirrors(node),
            self.live(x),
            !self.carries(node, x),
            0 <= k < self.children()[x].len(),
            self.carries(node, self.children()[x][k]),
        ensures
            self.children()[x][k] == self.index()[node.id()],
    {
        let d = self.children()[x][k];
        let id = choose|id: u128|
            node.has_id(id) && self.index().contains_key(id) && #[trigger] self.index()[id] == d;
        assert(self.parents()[self.children()[x][k]] == Some(x));
        if d != self.index()[node.id()] {
            self.lemma_mirror_parent_inside(node, id);
        }
    }

    /// The parent of the root of a mirrored subtree is no layout node of the subtree.
    pub proof fn lemma_parent_outside(&self, node: NodeModel, p: u64)
        requires
            self.wf(),
            self.mirrors(node),
            self.parents()[self.index()[node.id()]] == Some(p),
        ensures
            !self.carries(node, p),
            self.live(p),
    {
        let h = self.index()[node.id()];
        assert(self.parents().contains_key(h));
        assert(self.parents()[h] is Some);
        if self.carries(node, p) {
            let id = choose|id: u128|
                node.has_id(id) && self.index().contains_key(id) && #[trigger] self.index()[id] == p;
            if p != h {
                self.lemma_mirror_parent_inside(node, id);
            }
        }
    }

    /// After a replacement the layout tree has followed the change from the old tree to the new.
    pub proof fn lemma_replace_follows(
        &self,
        before: LayoutMapping,
        cleared: LayoutMapping,
        built: LayoutMapping,
        spliced: LayoutMapping,
        gone: NodeModel,
        fresh: NodeModel,
        doomed: Seq<u64>,
        place: Option<(u64, int)>,
    )
        requires
            before.wf(),
            before.mirrors(gone),
            built.wf(),
            match place {
                Some((p, at)) => before.parents()[before.index()[gone.id()]] == Some(p) && 0 <= at
                    < before.children()[p].len() && before.children()[p][at]
                    == before.index()[gone.id()] && spliced.children() == built.children().insert(
                    p,
                    built.children()[p].update(at, built.index()[fresh.id()]),
                ),
                None => before.parents()[before.index()[gone.id()]] is None && spliced.children()
                    == built.children(),
            },
            cleared.children() == before.children(),
            cleared.parents() == before.parents(),
            forall|id: u128| !gone.has_id(id) ==> #[trigger] cleared.same_entry(before, id),
            forall|j: int| 0 <= j < doomed.len() ==> before.carries(gone, #[trigger] doomed[j]),
            forall|j: int, k: int| 0 <= j < k < doomed.len() ==> doomed[j] != doomed[k],
            forall|id: u128|
                gone.has_id(id) && before.index().contains_key(id) ==> doomed.contains(
                    #[trigger] before.index()[id],
                ),
            built.extends(cleared),
            built.registers(cleared, fresh),
            built.mirrors(fresh),
            spliced.index() == built.index(),
            self.index() == built.index(),
            forall|x: u64| #[trigger] self.live(x) <==> built.live(x) && !doomed.contains(x),
            forall|x: u64| #[trigger]
                self.live(x) ==> self.children()[x] == purged(
                    spliced.children()[x],
                    doomed,
                    doomed.len() as int,
                ),
        ensures
            self.follows(before, gone, fresh),
    {
        let h_old = before.index()[gone.id()];
        let h_new = built.index()[fresh.id()];
        assert(gone.has_id(gone.id()));
        assert(fresh.has_id(fresh.id()));
        before.lemma_mirror_registered(gone, gone.id());
        assert forall|j: int| 0 <= j < doomed.len() implies cleared.live(#[trigger] doomed[j]) by {
            let d = doomed[j];
            let id = choose|id: u128|
                gone.has_id(id) && before.index().contains_key(id) && #[trigger] before.index()[id]
                    == d;
            before.lemma_mirror_registered(gone, id);
        }
        // The new subtree is untouched by the splice and by the purge.
        assert forall|id: u128| #[trigger]
            fresh.has_id(id) && built.index().contains_key(id) implies self.index().contains_key(id)
            && self.index()[id] == built.index()[id] && self.live(self.index()[id])
            && self.children()[self.index()[id]] == built.children()[built.index()[id]] by {
            let v = built.index()[id];
            assert(!cleared.live(v));
            built.lemma_mirror_registered(fresh, id);
            if doomed.contains(v) {
                let j = choose|j: int| 0 <= j < doomed.len() && doomed[j] == v;
                assert(cleared.live(doomed[j]));
            }
            assert(self.live(v));
            match place {
                Some((p, at)) => {
                    before.lemma_parent_outside(gone, p);
                    assert(cleared.live(p));
                },
                None => {},
            }
            let list = spliced.children()[v];
            assert(list == built.children()[v]);
            assert forall|j: int| 0 <= j < doomed.len() implies !list.contains(
                #[trigger] doomed[j],
            ) by {
                if list.contains(doomed[j]) {
                    let k = choose|k: int| 0 <= k < list.len() && list[k] == doomed[j];
                    built.lemma_mirror_children_held(fresh, id, k);
                    let inner = choose|inner: u128|
                        fresh.has_id(inner) && built.index().contains_key(inner)
                            && #[trigger] built.index()[inner] == list[k];
                    assert(!cleared.live(built.index()[inner]));
                    assert(cleared.live(doomed[j]));
                }
            }
            lemma_purged_absent(list, doomed, doomed.len() as int);
        }
        self.lemma_mirrors_kept(built, fresh);
        assert forall|id: u128| !gone.has_id(id) && !fresh.has_id(id) implies #[trigger] self.same_entry(
            before,
            id,
        ) by {
            assert(cleared.same_entry(before, id));
            assert(built.index().contains_key(id) == cleared.index().contains_key(id));
        }
        assert forall|x: u64| #[trigger] before.live(x) && !before.carries(gone, x) implies self.live(
            x,
        ) && self.children()[x] == swapped(before.children()[x], h_old, self.index()[fresh.id()]) by {
            assert(cleared.live(x));
            assert(built.live(x));
            if doomed.contains(x) {
                let j = choose|j: int| 0 <= j < doomed.len() && doomed[j] == x;
                assert(before.carries(gone, doomed[j]));
            }
            assert(self.live(x));
            let list = before.children()[x];
            assert(built.children()[x] == list);
            assert(list.no_duplicates()) by {
                assert forall|i: int, j: int|
                    0 <= i < list.len() && 0 <= j < list.len() && i != j implies list[i]
                    != list[j] by {
                    if i < j {
                        assert(before.children()[x][i] != before.children()[x][j]);
                    } else {
                        assert(before.children()[x][j] != before.children()[x][i]);
                    }
                }
            }
            // No layout node of the old subtree but its root is in the list.
            assert forall|k: int| 0 <= k < list.len() && doomed.contains(list[k]) implies list[k]
                == h_old by {
                let j = choose|j: int| 0 <= j < doomed.len() && doomed[j] == list[k];
                assert(before.carries(gone, doomed[j]));
                before.lemma_outside_lists(gone, x, k);
            }
            let now = spliced.children()[x];
            let holds_root = match place {
                Some((p, at)) => p == x,
                None => false,
            };
            if holds_root {
                let at = place->Some_0.1;
                assert(now == list.update(at, h_new));
                assert(!cleared.live(h_new));
                assert forall|j: int| 0 <= j < doomed.len() implies !now.contains(
                    #[trigger] doomed[j],
                ) by {
                    if now.contains(doomed[j]) {
                        let k = choose|k: int| 0 <= k < now.len() && now[k] == doomed[j];
                        assert(cleared.live(doomed[j]));
                        if k != at {
                            assert(list[k] == doomed[j]);
                            assert(doomed.contains(list[k]));
                            assert(list[k] == h_old);
                        }
                    }
                }
                lemma_purged_absent(now, doomed, doomed.len() as int);
                assert(now =~= swapped(list, h_old, h_new));
            } else {
                assert(now == list);
                assert(!list.contains(h_old)) by {
                    if list.contains(h_old) {
                        let k = choose|k: int| 0 <= k < list.len() && list[k] == h_old;
                        assert(before.parents()[before.children()[x][k]] == Some(x));
                    }
                }
                assert forall|j: int| 0 <= j < doomed.len() implies !list.contains(
                    #[trigger] doomed[j],
                ) by {
                    if list.contains(doomed[j]) {
                        let k = choose|k: int| 0 <= k < list.len() && list[k] == doomed[j];
                        assert(doomed.contains(list[k]));
                    }
                }
                lemma_purged_absent(list, doomed, doomed.len() as int);
                lemma_swapped_absent(list, h_old, h_new);
            }
        }
        assert(!cleared.live(h_new));
    }

    /// After the removal of a mirrored child subtree, every layout node
    /// outside it is still there, with the children it had but for the
    /// root of the subtree.
    pub proof fn lemma_remove_shrinks(
        &self,
        before: LayoutMapping,
        gone: NodeModel,
        doomed: Seq<u64>,
        x: u64,
    )
        requires
            before.wf(),
            before.mirrors(gone),
            forall|j: int| 0 <= j < doomed.len() ==> before.carries(gone, #[trigger] doomed[j]),
            forall|j: int, k: int| 0 <= j < k < doomed.len() ==> doomed[j] != doomed[k],
            forall|id: u128|
                gone.has_id(id) && before.index().contains_key(id) ==> doomed.contains(
                    #[trigger] before.index()[id],
                ),
            forall|y: u64| #[trigger] self.live(y) <==> before.live(y) && !doomed.contains(y),
            forall|y: u64| #[trigger]
                self.live(y) ==> self.children()[y] == purged(
                    before.children()[y],
                    doomed,
                    doomed.len() as int,
                ),
            before.live(x),
            !before.carries(gone, x),
        ensures
            self.live(x),
            self.children()[x] == without(before.children()[x], before.index()[gone.id()]),
    {
        let h_old = before.index()[gone.id()];
        assert(gone.has_id(gone.id()));
        before.lemma_mirror_registered(gone, gone.id());
        if doomed.contains(x) {
            let j = choose|j: int| 0 <= j < doomed.len() && doomed[j] == x;
            assert(before.carries(gone, doomed[j]));
        }
        assert(self.live(x));
        let list = before.children()[x];
        assert(self.children()[x] == purged(list, doomed, doomed.len() as int));
        assert(list.no_duplicates()) by {
            assert forall|i: int, j: int|
                0 <= i < list.len() && 0 <= j < list.len() && i != j implies list[i] != list[j] by {
                if i < j {
                    assert(before.children()[x][i] != before.children()[x][j]);
                } else {
                    assert(before.children()[x][j] != before.children()[x][i]);
                }
            }
        }
        assert forall|k: int| 0 <= k < list.len() && doomed.contains(list[k]) implies list[k]
            == h_old by {
            let j = choose|j: int| 0 <= j < doomed.len() && doomed[j] == list[k];
            assert(before.carries(gone, doomed[j]));
            before.lemma_outside_lists(gone, x, k);
        }
        if list.contains(h_old) {
            let at = choose|at: int| 0 <= at < list.len() && list[at] == h_old;
            assert(doomed.contains(before.index()[gone.id()]));
            let w = choose|w: int| 0 <= w < doomed.len() && doomed[w] == h_old;
            assert(doomed[w] == list[at]);
            assert forall|j: int, k: int|
                0 <= j < doomed.len() && 0 <= k < list.len() && k != at implies #[trigger] doomed[j]
                != #[trigger] list[k] by {
                if doomed[j] == list[k] {
                    assert(doomed.contains(list[k]));
                }
            }
            lemma_purged_one(list, doomed, doomed.len() as int, at);
            lemma_without_one(list, h_old, at);
        } else {
            assert forall|j: int| 0 <= j < doomed.len() implies !list.contains(
                #[trigger] doomed[j],
            ) by {
                if list.contains(doomed[j]) {
                    let k = choose|k: int| 0 <= k < list.len() && list[k] == doomed[j];
                    assert(doomed.contains(list[k]));
                }
            }
            lemma_purged_absent(list, doomed, doomed.len() as int);
            lemma_without_absent(list, h_old);
        }
    }
}

impl LayoutMapping {
    /// Giving a root `h` that lies deeper than `p` to `p` as a child keeps
    /// the layout tree well formed.
    pub proof fn lemma_attached(&self, before: LayoutMapping, p: u64, h: u64, list: Seq<u64>)
        requires
            before.wf(),
            before.live(p),
            before.live(h),
            before.parents()[h] is None,
            before.depths()[p] < before.depths()[h],
            self.index() == before.index(),
            self.depths() == before.depths(),
            self.children() == before.children().insert(p, list),
            self.parents() == before.parents().insert(h, Some(p)),
            list.len() == before.children()[p].len() + 1,
            exists|at: int|
                0 <= at < list.len() && list == before.children()[p].insert(at, h),
        ensures
            self.wf(),
    {
        let ch = before.children();
        let par = before.parents();
        let at = choose|at: int| 0 <= at < list.len() && list == ch[p].insert(at, h);
        assert forall|w: int| 0 <= w < ch[p].len() implies ch[p][w] != h by {
            assert(par[ch[p][w]] == Some(p));
        }
        assert forall|q: u64, j: int|
            self.children().contains_key(q) && 0 <= j < self.children()[q].len()
            implies self.parents().contains_key(#[trigger] self.children()[q][j])
            && self.parents()[self.children()[q][j]] == Some(q) by {
            if q == p {
                if j < at {
                    assert(list[j] == ch[p][j]);
                    assert(par[ch[p][j]] == Some(p));
                } else if j > at {
                    assert(list[j] == ch[p][j - 1]);
                    assert(par[ch[p][j - 1]] == Some(p));
                }
            } else {
                let c = ch[q][j];
                assert(par[c] == Some(q));
            }
        }
        assert forall|x: u64|
            self.parents().contains_key(x) && (#[trigger] self.parents()[x])
                is Some implies self.children().contains_key(self.parents()[x]->0)
            && self.children()[self.parents()[x]->0].contains(x) && self.depths()[self.parents()[x]->0]
            < self.depths()[x] by {
            if x == h {
                assert(list[at] == h);
            } else {
                assert(par[x] is Some);
                let q = par[x]->0;
                if q == p {
                    let w = choose|w: int| 0 <= w < ch[p].len() && ch[p][w] == x;
                    if w < at {
                        assert(list[w] == x);
                    } else {
                        assert(list[w + 1] == x);
                    }
                }
            }
        }
        assert forall|q: u64, i: int, j: int|
            self.children().contains_key(q) && 0 <= i < j < self.children()[q].len()
            implies #[trigger] self.children()[q][i] != #[trigger] self.children()[q][j] by {
            if q == p {
                let i0 = if i < at { i } else { i - 1 };
                let j0 = if j < at { j } else { j - 1 };
                if i != at && j != at {
                    assert(list[i] == ch[p][i0] && list[j] == ch[p][j0]);
                    assert(ch[p][i0] != ch[p][j0]);
                } else if i == at {
                    assert(list[j] == ch[p][j0]);
                } else {
                    assert(list[i] == ch[p][i0]);
                }
            } else {
                assert(ch[q][i] != ch[q][j]);
            }
        }
    }

    /// Giving a root `h` that lies deeper than `p` the place of the child
    /// of `p` at `at` keeps the layout tree well formed.
    pub proof fn lemma_replaced(&self, before: LayoutMapping, p: u64, at: int, h: u64)
        requires
            before.wf(),
            before.live(p),
            before.live(h),
            before.parents()[h] is None,
            before.depths()[p] < before.depths()[h],
            0 <= at < before.children()[p].len(),
            self.index() == before.index(),
            self.depths() == before.depths(),
            self.children() == before.children().insert(p, before.children()[p].update(at, h)),
            self.parents() == before.parents().insert(h, Some(p)).insert(
                before.children()[p][at],
                None,
            ),
        ensures
            self.wf(),
    {
        let ch = before.children();
        let par = before.parents();
        let gone = ch[p][at];
        let list = ch[p].update(at, h);
        assert(par[gone] == Some(p));
        assert forall|w: int| 0 <= w < ch[p].len() implies ch[p][w] != h by {
            assert(par[ch[p][w]] == Some(p));
        }
        assert forall|q: u64, j: int|
            self.children().contains_key(q) && 0 <= j < self.children()[q].len()
            implies self.parents().contains_key(#[trigger] self.children()[q][j])
            && self.parents()[self.children()[q][j]] == Some(q) by {
            if q == p {
                if j != at {
                    assert(list[j] == ch[p][j]);
                    assert(par[ch[p][j]] == Some(p));
                    if j < at {
                        assert(ch[p][j] != ch[p][at]);
                    } else {
                        assert(ch[p][at] != ch[p][j]);
                    }
                }
            } else {
                let c = ch[q][j];
                assert(par[c] == Some(q));
            }
        }
        assert forall|x: u64|
            self.parents().contains_key(x) && (#[trigger] self.parents()[x])
                is Some implies self.children().contains_key(self.parents()[x]->0)
            && self.children()[self.parents()[x]->0].contains(x) && self.depths()[self.parents()[x]->0]
            < self.depths()[x] by {
            if x == h {
                assert(list[at] == h);
            } else {
                assert(par[x] is Some);
                let q = par[x]->0;
                if q == p {
                    let w = choose|w: int| 0 <= w < ch[p].len() && ch[p][w] == x;
                    assert(list[w] == x);
                }
            }
        }
        assert forall|q: u64, i: int, j: int|
            self.children().contains_key(q) && 0 <= i < j < self.children()[q].len()
            implies #[trigger] self.children()[q][i] != #[trigger] self.children()[q][j] by {
            if q == p {
                if i != at && j != at {
                    assert(ch[p][i] != ch[p][j]);
                }
            } else {
                assert(ch[q][i] != ch[q][j]);
            }
        }
    }
}

} // verus!
