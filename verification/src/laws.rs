//! What holds of diffing and patching together.
use vstd::prelude::*;
use crate::attributes::{Entries, distinct_keys, has_key, lemma_value_at, position_of, value_of};
use crate::patch::{
    Change, PatchModel, added, apply_all, apply_changes, apply_spec, attr_changes,
    changed_or_dropped, child_ops, diff_spec, fits, fits_all, longer,
};
use crate::vdom::NodeModel;

verus! {

/// Against itself a mapping with distinct keys has no changed or dropped entry.
proof fn lemma_no_change_against_self(a: Entries, n: int)
    requires
        distinct_keys(a),
        0 <= n <= a.len(),
    ensures
        changed_or_dropped(a, a, n) == Seq::<Change>::empty(),
        added(a, a, n) == Seq::<Change>::empty(),
    decreases n,
{
    if n > 0 {
        lemma_no_change_against_self(a, n - 1);
        lemma_value_at(a, n - 1);
    }
}

/// Against themselves the children need no patch.
proof fn lemma_no_child_ops_against_self(kids: Seq<NodeModel>, n: int)
    requires
        forall|i: int| 0 <= i < kids.len() ==> (#[trigger] kids[i]).well_formed(),
        0 <= n <= kids.len(),
    ensures
        child_ops(kids, kids, n) == Seq::<PatchModel>::empty(),
    decreases kids, n,
{
    if n > 0 {
        lemma_no_child_ops_against_self(kids, n - 1);
        lemma_diff_of_same_tree(kids[n - 1]);
    }
}

/// A node is equivalent to itself.
pub proof fn lemma_equivalent_reflexive(t: NodeModel)
    ensures
        t.equivalent(t),
    decreases t,
{
    match t {
        NodeModel::Element { children, .. } => {
            assert forall|i: int| 0 <= i < children.len() implies (#[trigger] children[i]).equivalent(
                children[i],
            ) by {
                lemma_equivalent_reflexive(children[i]);
            }
        },
        NodeModel::Text { .. } => {},
    }
}

/// Diffing a tree against itself yields no patch, however deep the tree.
pub proof fn lemma_diff_of_same_tree(t: NodeModel)
    requires
        t.well_formed(),
    ensures
        diff_spec(t, t).is_none(),
    decreases t, 0int,
{
    match t {
        NodeModel::Element { attrs, children, .. } => {
            lemma_no_change_against_self(attrs, attrs.len() as int);
            lemma_no_child_ops_against_self(children, children.len() as int);
        },
        NodeModel::Text { .. } => {
            lemma_equivalent_reflexive(t);
        },
    }
}

/// Whether one of the first `n` changes is about the key `k`.
pub open spec fn mentions(changes: Seq<Change>, n: int, k: Seq<char>) -> bool {
    exists|j: int| 0 <= j < n && j < changes.len() && (#[trigger] changes[j]).0 == k
}

/// Every change of a diff carries the value that the new mapping binds.
proof fn lemma_changes_sound(a: Entries, b: Entries, n: int, m: int)
    requires
        distinct_keys(b),
        0 <= n <= a.len(),
        0 <= m <= b.len(),
    ensures
        forall|j: int|
            0 <= j < changed_or_dropped(a, b, n).len() ==> (#[trigger] changed_or_dropped(
                a,
                b,
                n,
            )[j]).2 == value_of(b, changed_or_dropped(a, b, n)[j].0),
        forall|j: int|
            0 <= j < added(a, b, m).len() ==> (#[trigger] added(a, b, m)[j]).2 == value_of(
                b,
                added(a, b, m)[j].0,
            ),
    decreases n + m,
{
    if n > 0 {
        lemma_changes_sound(a, b, n - 1, m);
    } else if m > 0 {
        lemma_changes_sound(a, b, n, m - 1);
        lemma_value_at(b, m - 1);
    }
}

/// A key whose entry `a` has among its first `n`, with a value that `b` does
/// not bind it to, is among the changed or dropped.
proof fn lemma_changed_covers(a: Entries, b: Entries, n: int, p: int)
    requires
        0 <= p < n <= a.len(),
        value_of(b, a[p].0) != Some(a[p].1),
    ensures
        exists|j: int|
            0 <= j < changed_or_dropped(a, b, n).len() && (#[trigger] changed_or_dropped(
                a,
                b,
                n,
            )[j]).0 == a[p].0,
    decreases n,
{
    let cs = changed_or_dropped(a, b, n);
    if p == n - 1 {
        assert(cs[cs.len() - 1].0 == a[p].0);
    } else {
        lemma_changed_covers(a, b, n - 1, p);
        let rest = changed_or_dropped(a, b, n - 1);
        let j = choose|j: int| 0 <= j < rest.len() && (#[trigger] rest[j]).0 == a[p].0;
        assert(cs[j] == rest[j]);
    }
}

/// A key that `b` has among its first `n` entries and `a` lacks is among the added.
proof fn lemma_added_covers(a: Entries, b: Entries, n: int, p: int)
    requires
        0 <= p < n <= b.len(),
        !has_key(a, b[p].0),
    ensures
        exists|j: int|
            0 <= j < added(a, b, n).len() && (#[trigger] added(a, b, n)[j]).0 == b[p].0,
    decreases n,
{
    let cs = added(a, b, n);
    if p == n - 1 {
        assert(cs[cs.len() - 1].0 == b[p].0);
    } else {
        lemma_added_covers(a, b, n - 1, p);
        let rest = added(a, b, n - 1);
        let j = choose|j: int| 0 <= j < rest.len() && (#[trigger] rest[j]).0 == b[p].0;
        assert(cs[j] == rest[j]);
    }
}

/// After the first `n` changes, each of which carries the value that `b`
/// binds, a key that they mention is bound as in `b` and any other as in `a`.
proof fn lemma_apply_changes(a: Entries, b: Entries, changes: Seq<Change>, n: int)
    requires
        distinct_keys(a),
        0 <= n <= changes.len(),
        forall|j: int| 0 <= j < changes.len() ==> (#[trigger] changes[j]).2 == value_of(b, changes[j].0),
    ensures
        distinct_keys(apply_changes(a, changes, n)),
        forall|k: Seq<char>|
            #[trigger] value_of(apply_changes(a, changes, n), k) == if mentions(changes, n, k) {
                value_of(b, k)
            } else {
                value_of(a, k)
            },
    decreases n,
{
    if n > 0 {
        lemma_apply_changes(a, b, changes, n - 1);
        let prev = apply_changes(a, changes, n - 1);
        let c = changes[n - 1];
        let r = apply_changes(a, changes, n);
        match c.2 {
            Some(v) => {
                crate::attributes::lemma_with_binding(prev, c.0, v);
            },
            None => {
                crate::attributes::lemma_without_key(prev, c.0);
            },
        }
        assert forall|k: Seq<char>| #[trigger]
            value_of(r, k) == if mentions(changes, n, k) {
                value_of(b, k)
            } else {
                value_of(a, k)
            } by {
            if k == c.0 {
                assert(mentions(changes, n, k));
            } else {
                assert(value_of(r, k) == value_of(prev, k));
                if mentions(changes, n - 1, k) {
                    let j = choose|j: int|
                        0 <= j < n - 1 && j < changes.len() && (#[trigger] changes[j]).0 == k;
                    assert(mentions(changes, n, k));
                } else if mentions(changes, n, k) {
                    let j = choose|j: int|
                        0 <= j < n && j < changes.len() && (#[trigger] changes[j]).0 == k;
                    assert(j < n - 1);
                    assert(mentions(changes, n - 1, k));
                }
            }
        }
    } else {
        assert forall|k: Seq<char>| !mentions(changes, n, k) by {}
    }
}

/// Applying the attribute changes of a diff yields the bindings of the new mapping.
pub proof fn lemma_attr_round_trip(a: Entries, b: Entries)
    requires
        distinct_keys(a),
        distinct_keys(b),
    ensures
        distinct_keys(apply_changes(a, attr_changes(a, b), attr_changes(a, b).len() as int)),
        crate::attributes::same_bindings(
            apply_changes(a, attr_changes(a, b), attr_changes(a, b).len() as int),
            b,
        ),
{
    let first = changed_or_dropped(a, b, a.len() as int);
    let second = added(a, b, b.len() as int);
    let cs = attr_changes(a, b);
    let n = cs.len() as int;
    lemma_changes_sound(a, b, a.len() as int, b.len() as int);
    assert forall|j: int| 0 <= j < cs.len() implies (#[trigger] cs[j]).2 == value_of(b, cs[j].0) by {
        if j < first.len() {
            assert(cs[j] == first[j]);
        } else {
            assert(cs[j] == second[j - first.len()]);
        }
    }
    lemma_apply_changes(a, b, cs, n);
    let r = apply_changes(a, cs, n);
    assert forall|k: Seq<char>| #[trigger] value_of(r, k) == value_of(b, k) by {
        if !mentions(cs, n, k) && value_of(a, k) != value_of(b, k) {
            if has_key(a, k) {
                let p = position_of(a, k);
                lemma_value_at(a, p);
                lemma_changed_covers(a, b, a.len() as int, p);
                let j = choose|j: int| 0 <= j < first.len() && (#[trigger] first[j]).0 == a[p].0;
                assert(cs[j] == first[j]);
                assert(mentions(cs, n, k));
            } else {
                assert(has_key(b, k));
                let p = position_of(b, k);
                lemma_added_covers(a, b, b.len() as int, p);
                let j = choose|j: int| 0 <= j < second.len() && (#[trigger] second[j]).0 == b[p].0;
                assert(cs[first.len() + j] == second[j]);
                assert(mentions(cs, n, k));
            }
        }
    }
}

/// The tree that the diff from `old` to `new` turns `old` into.
pub open spec fn patched(old: NodeModel, new: NodeModel) -> NodeModel {
    match diff_spec(old, new) {
        Some(p) => apply_spec(old, p),
        None => old,
    }
}

/// Wherever the diff from `old` to `new` compares two child lists, the old
/// one is longer than the new one by one child at most.
pub open spec fn removes_at_most_one(old: NodeModel, new: NodeModel) -> bool
    decreases old,
{
    match (old, new) {
        (
            NodeModel::Element { tag, children, .. },
            NodeModel::Element { tag: tag2, children: children2, .. },
        ) => tag == tag2 ==> {
            &&& children.len() <= children2.len() + 1
            &&& forall|i: int|
                0 <= i < children.len() && i < children2.len() ==> removes_at_most_one(
                    #[trigger] children[i],
                    children2[i],
                )
        },
        _ => true,
    }
}

/// `result` is `new` rebuilt on `old`: where an element keeps its tag it
/// keeps its identity, name and style too, takes the attributes and the
/// number of children of `new`, and its children are rebuilt in the same
/// way; a text that has not changed is the old text itself; everything else
/// is taken from `new`.
pub open spec fn reconciled(old: NodeModel, new: NodeModel, result: NodeModel) -> bool
    decreases old,
{
    match (old, new) {
        (NodeModel::Text { .. }, NodeModel::Text { .. }) => if old.equivalent(new) {
            result == old
        } else {
            result == new
        },
        (
            NodeModel::Element { identity, name, tag, style, children, .. },
            NodeModel::Element { tag: tag2, attrs: attrs2, children: children2, .. },
        ) => if tag != tag2 {
            result == new
        } else {
            match result {
                NodeModel::Element {
                    identity: identity3,
                    name: name3,
                    tag: tag3,
                    attrs: attrs3,
                    style: style3,
                    children: children3,
                } => {
                    &&& identity3 == identity
                    &&& name3 == name
                    &&& tag3 == tag
                    &&& style3 == style
                    &&& crate::attributes::same_bindings(attrs3, attrs2)
                    &&& children3.len() == children2.len()
                    &&& forall|i: int|
                        0 <= i < children3.len() ==> if i < children.len() {
                            reconciled(children[i], children2[i], #[trigger] children3[i])
                        } else {
                            children3[i] == children2[i]
                        }
                },
                _ => false,
            }
        },
        _ => result == new,
    }
}

/// `base` with another list of children; a text is left as it is.
pub open spec fn with_kids(base: NodeModel, kids: Seq<NodeModel>) -> NodeModel {
    match base {
        NodeModel::Element { identity, name, tag, attrs, style, .. } => NodeModel::Element {
            identity,
            name,
            tag,
            attrs,
            style,
            children: kids,
        },
        NodeModel::Text { .. } => base,
    }
}

/// The children after the child patches for the indices below `n`.
pub open spec fn kids_after(olds: Seq<NodeModel>, news: Seq<NodeModel>, n: int) -> Seq<NodeModel> {
    let len = if n <= olds.len() {
        if n <= news.len() {
            olds.len() as int
        } else {
            olds.len() - 1
        }
    } else {
        n
    };
    Seq::new(
        len as nat,
        |j: int|
            if j < n && j < olds.len() && j < news.len() {
                patched(olds[j], news[j])
            } else if j < olds.len() {
                olds[j]
            } else {
                news[j]
            },
    )
}

/// What the first `n` patches of a list do depends on those patches alone.
proof fn lemma_apply_prefix(node: NodeModel, s1: Seq<PatchModel>, s2: Seq<PatchModel>, n: int)
    requires
        0 <= n <= s1.len(),
        n <= s2.len(),
        forall|i: int| 0 <= i < n ==> s1[i] == s2[i],
    ensures
        apply_all(node, s1, n) == apply_all(node, s2, n),
        fits_all(node, s1, n) == fits_all(node, s2, n),
    decreases n,
{
    if n > 0 {
        lemma_apply_prefix(node, s1, s2, n - 1);
    }
}

/// The child patches of a diff fit, one after the other, and leave the
/// children that `kids_after` describes.
proof fn lemma_children_round_trip(
    old: NodeModel,
    base: NodeModel,
    olds: Seq<NodeModel>,
    news: Seq<NodeModel>,
    head: Seq<PatchModel>,
    n: int,
)
    requires
        base is Element,
        base.kids() == olds,
        fits_all(old, head, head.len() as int),
        apply_all(old, head, head.len() as int) == base,
        olds.len() <= news.len() + 1,
        0 <= n <= longer(olds.len() as int, news.len() as int),
        forall|i: int| 0 <= i < olds.len() ==> (#[trigger] olds[i]).well_formed(),
        forall|i: int| 0 <= i < news.len() ==> (#[trigger] news[i]).well_formed(),
        forall|i: int|
            0 <= i < olds.len() && i < news.len() ==> removes_at_most_one(
                #[trigger] olds[i],
                news[i],
            ),
    ensures
        fits_all(
            old,
            head + child_ops(olds, news, n),
            (head + child_ops(olds, news, n)).len() as int,
        ),
        apply_all(
            old,
            head + child_ops(olds, news, n),
            (head + child_ops(olds, news, n)).len() as int,
        ) == with_kids(base, kids_after(olds, news, n)),
    decreases olds, n,
{
    let ops = head + child_ops(olds, news, n);
    if n <= 0 {
        assert(ops =~= head);
        assert(kids_after(olds, news, n) =~= olds);
    } else {
        lemma_children_round_trip(old, base, olds, news, head, n - 1);
        let rest = child_ops(olds, news, n - 1);
        let before = head + rest;
        let mid = with_kids(base, kids_after(olds, news, n - 1));
        let i = n - 1;
        if i < olds.len() && i < news.len() {
            lemma_round_trip(olds[i], news[i]);
            match diff_spec(olds[i], news[i]) {
                Some(d) => {
                    let step = PatchModel::PatchChild(i, Box::new(d));
                    assert(ops =~= before.push(step));
                    lemma_apply_prefix(old, ops, before, before.len() as int);
                    assert(kids_after(olds, news, n) =~= kids_after(olds, news, n - 1).update(
                        i,
                        apply_spec(olds[i], d),
                    ));
                    assert(mid.kids()[i] == olds[i]);
                    assert(fits(mid, step));
                    assert(apply_spec(mid, step) == with_kids(base, kids_after(olds, news, n)));
                    assert(apply_all(old, ops, ops.len() as int) == apply_spec(
                        apply_all(old, ops, ops.len() - 1),
                        ops[ops.len() - 1],
                    ));
                },
                None => {
                    assert(ops =~= before);
                    assert(kids_after(olds, news, n) =~= kids_after(olds, news, n - 1));
                },
            }
        } else if i < news.len() {
            let step = PatchModel::AddChild(i, news[i]);
            assert(ops =~= before.push(step));
            lemma_apply_prefix(old, ops, before, before.len() as int);
            assert(kids_after(olds, news, n) =~= kids_after(olds, news, n - 1).insert(i, news[i]));
            assert(fits(mid, step));
            assert(apply_spec(mid, step) == with_kids(base, kids_after(olds, news, n)));
            assert(apply_all(old, ops, ops.len() as int) == apply_spec(
                apply_all(old, ops, ops.len() - 1),
                ops[ops.len() - 1],
            ));
        } else {
            let step = PatchModel::RemoveChild(i);
            assert(ops =~= before.push(step));
            lemma_apply_prefix(old, ops, before, before.len() as int);
            assert(kids_after(olds, news, n) =~= kids_after(olds, news, n - 1).remove(i));
            assert(fits(mid, step));
            assert(apply_spec(mid, step) == with_kids(base, kids_after(olds, news, n)));
            assert(apply_all(old, ops, ops.len() as int) == apply_spec(
                apply_all(old, ops, ops.len() - 1),
                ops[ops.len() - 1],
            ));
        }
    }
}

/// A patch round trip: the diff from `old` to `new` fits `old`, and applied
/// to `old` it rebuilds `new` on `old`.
///
/// This holds where no compared child list loses more than one child: a diff
/// that removes two or more children of one element addresses them by their
/// old indices, which no longer fit once the first is gone.
pub proof fn lemma_round_trip(old: NodeModel, new: NodeModel)
    requires
        old.well_formed(),
        new.well_formed(),
        removes_at_most_one(old, new),
    ensures
        diff_spec(old, new) matches Some(p) ==> fits(old, p),
        reconciled(old, new, patched(old, new)),
    decreases old, 0int,
{
    match (old, new) {
        (
            NodeModel::Element { identity, name, tag, attrs, style, children },
            NodeModel::Element { tag: tag2, attrs: attrs2, children: children2, .. },
        ) => {
            if tag == tag2 {
                let changes = attr_changes(attrs, attrs2);
                let top = longer(children.len() as int, children2.len() as int);
                let kids = child_ops(children, children2, top);
                lemma_attr_round_trip(attrs, attrs2);
                let head = if changes.len() == 0 {
                    Seq::<PatchModel>::empty()
                } else {
                    seq![PatchModel::ChangeAttributes { tag, changes }]
                };
                let base = NodeModel::Element {
                    identity,
                    name,
                    tag,
                    attrs: apply_changes(attrs, changes, changes.len() as int),
                    style,
                    children,
                };
                if changes.len() == 0 {
                    assert(base == old);
                } else {
                    assert(apply_all(old, head, 0) == old);
                    assert(apply_spec(old, head[0]) == base);
                    assert(apply_all(old, head, 1) == apply_spec(old, head[0]));
                    assert(fits_all(old, head, 0));
                    assert(fits(old, head[0]));
                    assert(fits_all(old, head, 1));
                }
                lemma_children_round_trip(old, base, children, children2, head, top);
                let result = with_kids(base, kids_after(children, children2, top));
                assert(head + kids =~= if changes.len() == 0 {
                    kids
                } else {
                    seq![PatchModel::ChangeAttributes { tag, changes }] + kids
                });
                assert(patched(old, new) == result);
                assert forall|i: int| 0 <= i < children2.len() implies if i < children.len() {
                    reconciled(children[i], children2[i], #[trigger] result.kids()[i])
                } else {
                    result.kids()[i] == children2[i]
                } by {
                    if i < children.len() {
                        lemma_round_trip(children[i], children2[i]);
                    }
                }
                assert(result.kids().len() == children2.len());
                assert(result is Element);
            }
        },
        _ => {},
    }
}

/// A node has the same structure as itself.
pub proof fn lemma_same_structure_reflexive(t: NodeModel)
    ensures
        t.same_structure(t),
    decreases t,
{
    match t {
        NodeModel::Element { children, .. } => {
            assert forall|i: int| 0 <= i < children.len() implies (
            #[trigger] children[i]).same_structure(children[i]) by {
                lemma_same_structure_reflexive(children[i]);
            }
        },
        NodeModel::Text { .. } => {
            lemma_equivalent_reflexive(t);
        },
    }
}

/// A tree rebuilt on an old one has the structure of the new one: the same
/// tags, attributes, texts and child order.
pub proof fn lemma_reconciled_same_structure(old: NodeModel, new: NodeModel, result: NodeModel)
    requires
        reconciled(old, new, result),
    ensures
        result.same_structure(new),
    decreases old,
{
    lemma_same_structure_reflexive(new);
    match (old, new) {
        (
            NodeModel::Element { tag, children, .. },
            NodeModel::Element { tag: tag2, children: children2, .. },
        ) => {
            if tag == tag2 {
                let children3 = result.kids();
                assert forall|i: int| 0 <= i < children3.len() implies (
                #[trigger] children3[i]).same_structure(children2[i]) by {
                    if i < children.len() {
                        lemma_reconciled_same_structure(children[i], children2[i], children3[i]);
                    } else {
                        lemma_same_structure_reflexive(children2[i]);
                    }
                }
            }
        },
        _ => {},
    }
}

/// Applying the diff from `old` to `new` to `old` yields a tree with the
/// structure of `new`: the same tags, attributes, texts and child order.
///
/// This holds where no compared child list loses more than one child.
pub proof fn lemma_round_trip_structure(old: NodeModel, new: NodeModel)
    requires
        old.well_formed(),
        new.well_formed(),
        removes_at_most_one(old, new),
    ensures
        diff_spec(old, new) matches Some(p) ==> fits(old, p),
        patched(old, new).same_structure(new),
{
    lemma_round_trip(old, new);
    lemma_reconciled_same_structure(old, new, patched(old, new));
}

/// Whether `path` leads from `tree` down to a node, child index by child index.
pub open spec fn reaches(tree: NodeModel, path: Seq<int>) -> bool
    decreases path.len(),
{
    if path.len() == 0 {
        true
    } else {
        &&& tree is Element
        &&& 0 <= path[0] < tree.kids().len()
        &&& reaches(tree.kids()[path[0]], path.drop_first())
    }
}

/// The node of `tree` that `path` leads to.
pub open spec fn node_at(tree: NodeModel, path: Seq<int>) -> NodeModel
    decreases path.len(),
{
    if path.len() == 0 {
        tree
    } else {
        node_at(tree.kids()[path[0]], path.drop_first())
    }
}

/// `tree` with `leaf` in the place of the node that `path` leads to.
pub open spec fn replaced_at(tree: NodeModel, path: Seq<int>, leaf: NodeModel) -> NodeModel
    decreases path.len(),
{
    if path.len() == 0 {
        leaf
    } else {
        with_kids(
            tree,
            tree.kids().update(path[0], replaced_at(tree.kids()[path[0]], path.drop_first(), leaf)),
        )
    }
}

/// `inner` wrapped in one composite of one child patch for each step of `path`.
pub open spec fn wrapped(path: Seq<int>, inner: PatchModel) -> PatchModel
    decreases path.len(),
{
    if path.len() == 0 {
        inner
    } else {
        PatchModel::Composite(
            seq![PatchModel::PatchChild(path[0], Box::new(wrapped(path.drop_first(), inner)))],
        )
    }
}

/// Where only the child at `at` differs, the child patches are the one for that child.
proof fn lemma_one_child_changed(kids: Seq<NodeModel>, at: int, other: NodeModel, n: int)
    requires
        forall|i: int| 0 <= i < kids.len() ==> (#[trigger] kids[i]).well_formed(),
        0 <= at < kids.len(),
        0 <= n <= kids.len(),
        diff_spec(kids[at], other).is_some(),
    ensures
        child_ops(kids, kids.update(at, other), n) == if n <= at {
            Seq::<PatchModel>::empty()
        } else {
            seq![PatchModel::PatchChild(at, Box::new(diff_spec(kids[at], other).unwrap()))]
        },
    decreases n,
{
    if n > 0 {
        lemma_one_child_changed(kids, at, other, n - 1);
        if n - 1 != at {
            lemma_diff_of_same_tree(kids[n - 1]);
        } else {
            assert(Seq::<PatchModel>::empty().push(
                PatchModel::PatchChild(at, Box::new(diff_spec(kids[at], other).unwrap())),
            ) =~= seq![
                PatchModel::PatchChild(at, Box::new(diff_spec(kids[at], other).unwrap())),
            ]);
        }
    }
}

/// A change of one text reaches the root through child patches only: where
/// `new` is `old` with the text at `path` exchanged for another text, the diff
/// is the replacement of that text, wrapped once for each element above it.
/// No element on the way is replaced.
pub proof fn lemma_text_change_is_wrapped(old: NodeModel, path: Seq<int>, text: NodeModel)
    requires
        old.well_formed(),
        reaches(old, path),
        node_at(old, path) is Text,
        text is Text,
        !node_at(old, path).equivalent(text),
    ensures
        diff_spec(old, replaced_at(old, path, text)) == Some(
            wrapped(path, PatchModel::Replace(node_at(old, path), text)),
        ),
    decreases path.len(),
{
    if path.len() > 0 {
        let kids = old.kids();
        let at = path[0];
        let rest = path.drop_first();
        let child = replaced_at(kids[at], rest, text);
        lemma_text_change_is_wrapped(kids[at], rest, text);
        lemma_one_child_changed(kids, at, child, kids.len() as int);
        match old {
            NodeModel::Element { attrs, .. } => {
                lemma_no_change_against_self(attrs, attrs.len() as int);
            },
            NodeModel::Text { .. } => {},
        }
    }
}

} // verus!
