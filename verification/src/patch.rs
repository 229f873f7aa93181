//! Patches: the edit between two snapshots of a document tree.
use vstd::prelude::*;
use crate::attributes::{Entries, value_of, has_key, with_binding, without_key};
use crate::vdom::{NodeModel, VNode};

verus! {

/// One attribute change: the key, its value before and its value after.
pub type Change = (Seq<char>, Option<Seq<char>>, Option<Seq<char>>);

/// What a patch is, as a mathematical value.
pub enum PatchModel {
    Replace(NodeModel, NodeModel),
    ChangeAttributes { tag: Seq<char>, changes: Seq<Change> },
    AddChild(int, NodeModel),
    RemoveChild(int),
    PatchChild(int, Box<PatchModel>),
    Composite(Seq<PatchModel>),
}

/// An edit of a document tree.
#[derive(Debug, PartialEq)]
pub enum DiffOp {
    /// Put the second tree in the place of the first.
    Replace(VNode, VNode),
    /// Rewrite the attributes of an element.
    ChangeAttributes { tag: String, changes: Vec<(String, Option<String>, Option<String>)> },
    /// Insert a subtree at an index of the child list.
    AddChild(usize, VNode),
    /// Take out the child at an index.
    RemoveChild(usize),
    /// Apply a patch to the child at an index.
    PatchChild(usize, Box<DiffOp>),
    /// Apply several patches to the same node, one after the other.
    Composite(Vec<DiffOp>),
}

/// The character sequence of an optional string.
pub open spec fn value_view(v: Option<String>) -> Option<Seq<char>> {
    match v {
        Some(s) => Some(s@),
        None => None,
    }
}

/// The models of a list of attribute changes, in order.
pub open spec fn changes_view(changes: Seq<(String, Option<String>, Option<String>)>) -> Seq<
    Change,
> {
    Seq::new(
        changes.len(),
        |i: int| (changes[i].0@, value_view(changes[i].1), value_view(changes[i].2)),
    )
}

/// The models of a list of patches, in order.
pub open spec fn ops_view(ops: Seq<DiffOp>) -> Seq<PatchModel>
    decreases ops,
{
    Seq::new(
        ops.len(),
        |i: int|
            if 0 <= i < ops.len() {
                op_model(ops[i])
            } else {
                arbitrary()
            },
    )
}

/// The model of a patch.
pub open spec fn op_model(op: DiffOp) -> PatchModel
    decreases op,
{
    match op {
        DiffOp::Replace(a, b) => PatchModel::Replace(a@, b@),
        DiffOp::ChangeAttributes { tag, changes } => PatchModel::ChangeAttributes {
            tag: tag@,
            changes: changes_view(changes@),
        },
        DiffOp::AddChild(i, n) => PatchModel::AddChild(i as int, n@),
        DiffOp::RemoveChild(i) => PatchModel::RemoveChild(i as int),
        DiffOp::PatchChild(i, sub) => PatchModel::PatchChild(i as int, Box::new(op_model(*sub))),
        DiffOp::Composite(ops) => PatchModel::Composite(ops_view(ops@)),
    }
}

impl View for DiffOp {
    type V = PatchModel;

    open spec fn view(&self) -> PatchModel {
        op_model(*self)
    }
}

/// The model of an optional patch.
pub open spec fn patch_view(p: Option<DiffOp>) -> Option<PatchModel> {
    match p {
        Some(op) => Some(op@),
        None => None,
    }
}

/// The changes for the first `n` entries of `a`: one for each whose key `b`
/// binds to another value or not at all.
pub open spec fn changed_or_dropped(a: Entries, b: Entries, n: int) -> Seq<Change>
    decreases n,
{
    if n <= 0 {
        Seq::empty()
    } else {
        let rest = changed_or_dropped(a, b, n - 1);
        let e = a[n - 1];
        if value_of(b, e.0) != Some(e.1) {
            rest.push((e.0, Some(e.1), value_of(b, e.0)))
        } else {
            rest
        }
    }
}

/// The changes for the first `n` entries of `b`: one for each whose key `a` lacks.
pub open spec fn added(a: Entries, b: Entries, n: int) -> Seq<Change>
    decreases n,
{
    if n <= 0 {
        Seq::empty()
    } else {
        let rest = added(a, b, n - 1);
        let e = b[n - 1];
        if !has_key(a, e.0) {
            rest.push((e.0, None, Some(e.1)))
        } else {
            rest
        }
    }
}

/// The attribute changes from `a` to `b`: one for every key of either whose
/// value differs, the keys of `a` first.
pub open spec fn attr_changes(a: Entries, b: Entries) -> Seq<Change> {
    changed_or_dropped(a, b, a.len() as int) + added(a, b, b.len() as int)
}

/// The longer of two lengths.
pub open spec fn longer(a: int, b: int) -> int {
    if a >= b {
        a
    } else {
        b
    }
}

/// The child patches for the indices below `n`, in index order.
pub open spec fn child_ops(olds: Seq<NodeModel>, news: Seq<NodeModel>, n: int) -> Seq<PatchModel>
    decreases olds, n,
{
    if n <= 0 {
        Seq::empty()
    } else {
        let rest = child_ops(olds, news, n - 1);
        let i = n - 1;
        if i < olds.len() && i < news.len() {
            match diff_spec(olds[i], news[i]) {
                Some(d) => rest.push(PatchModel::PatchChild(i, Box::new(d))),
                None => rest,
            }
        } else if i < news.len() {
            rest.push(PatchModel::AddChild(i, news[i]))
        } else if i < olds.len() {
            rest.push(PatchModel::RemoveChild(i))
        } else {
            rest
        }
    }
}

/// The patch that leads from `old` to `new`, or nothing where they agree.
///
/// Texts are compared as values and replaced whole. Elements with different
/// tags are replaced whole. Elements with the same tag get one composite of
/// their attribute changes, if any, followed by their child patches, by
/// position. An element against a text is replaced.
pub open spec fn diff_spec(old: NodeModel, new: NodeModel) -> Option<PatchModel>
    decreases old, 0int,
{
    match (old, new) {
        (NodeModel::Text { .. }, NodeModel::Text { .. }) => {
            if old.equivalent(new) {
                None
            } else {
                Some(PatchModel::Replace(old, new))
            }
        },
        (
            NodeModel::Element { tag, attrs, children, .. },
            NodeModel::Element { tag: tag2, attrs: attrs2, children: children2, .. },
        ) => {
            if tag != tag2 {
                Some(PatchModel::Replace(old, new))
            } else {
                let changes = attr_changes(attrs, attrs2);
                let kids = child_ops(
                    children,
                    children2,
                    longer(children.len() as int, children2.len() as int),
                );
                if changes.len() == 0 && kids.len() == 0 {
                    None
                } else if changes.len() == 0 {
                    Some(PatchModel::Composite(kids))
                } else {
                    Some(
                        PatchModel::Composite(
                            seq![PatchModel::ChangeAttributes { tag, changes }] + kids,
                        ),
                    )
                }
            }
        },
        _ => Some(PatchModel::Replace(old, new)),
    }
}

/// `attrs` after the first `n` of `changes`: a change with a new value binds
/// its key, one without drops it.
pub open spec fn apply_changes(attrs: Entries, changes: Seq<Change>, n: int) -> Entries
    decreases n,
{
    if n <= 0 {
        attrs
    } else {
        let prev = apply_changes(attrs, changes, n - 1);
        let c = changes[n - 1];
        match c.2 {
            Some(v) => with_binding(prev, c.0, v),
            None => without_key(prev, c.0),
        }
    }
}

/// `node` after the first `n` patches of `ops`, each applied to the result of the one before.
pub open spec fn apply_all(node: NodeModel, ops: Seq<PatchModel>, n: int) -> NodeModel
    decreases ops, n,
{
    if n <= 0 || n > ops.len() {
        node
    } else {
        apply_spec(apply_all(node, ops, n - 1), ops[n - 1])
    }
}

/// `node` after `patch`.
///
/// Only an element can be edited in place: on a text every patch but a
/// replacement leaves the node as it is, and so does a patch of a child that
/// is not there.
pub open spec fn apply_spec(node: NodeModel, patch: PatchModel) -> NodeModel
    decreases patch, 0int,
{
    match node {
        NodeModel::Element { identity, name, tag, attrs, style, children } => match patch {
            PatchModel::Replace(_, new) => new,
            PatchModel::ChangeAttributes { tag: new_tag, changes } => NodeModel::Element {
                identity,
                name,
                tag: new_tag,
                attrs: apply_changes(attrs, changes, changes.len() as int),
                style,
                children,
            },
            PatchModel::AddChild(i, child) => NodeModel::Element {
                identity,
                name,
                tag,
                attrs,
                style,
                children: children.insert(i, child),
            },
            PatchModel::RemoveChild(i) => NodeModel::Element {
                identity,
                name,
                tag,
                attrs,
                style,
                children: children.remove(i),
            },
            PatchModel::PatchChild(i, sub) => if 0 <= i < children.len() {
                NodeModel::Element {
                    identity,
                    name,
                    tag,
                    attrs,
                    style,
                    children: children.update(i, apply_spec(children[i], *sub)),
                }
            } else {
                node
            },
            PatchModel::Composite(ops) => apply_all(node, ops, ops.len() as int),
        },
        NodeModel::Text { .. } => match patch {
            PatchModel::Replace(_, new) => new,
            PatchModel::Composite(ops) => apply_all(node, ops, ops.len() as int),
            _ => node,
        },
    }
}

/// Whether the first `n` patches of `ops` fit `node`, each the result of the one before.
pub open spec fn fits_all(node: NodeModel, ops: Seq<PatchModel>, n: int) -> bool
    decreases ops, n,
{
    if n <= 0 || n > ops.len() {
        true
    } else {
        fits_all(node, ops, n - 1) && fits(apply_all(node, ops, n - 1), ops[n - 1])
    }
}

/// Whether `patch` addresses only positions that `node` has: a child is
/// added at an index up to the number of children and removed at an index
/// below it, here and wherever the patch descends.
pub open spec fn fits(node: NodeModel, patch: PatchModel) -> bool
    decreases patch, 0int,
{
    match patch {
        PatchModel::Replace(_, _) => true,
        PatchModel::ChangeAttributes { .. } => true,
        PatchModel::AddChild(i, _) => node is Element ==> 0 <= i <= node.kids().len(),
        PatchModel::RemoveChild(i) => node is Element ==> 0 <= i < node.kids().len(),
        PatchModel::PatchChild(i, sub) => node is Element && 0 <= i < node.kids().len() ==> fits(
            node.kids()[i],
            *sub,
        ),
        PatchModel::Composite(ops) => fits_all(node, ops, ops.len() as int),
    }
}

} // verus!
