//! The diff engine and the patch reducer.
use vstd::prelude::*;
use crate::attributes::Attributes;
use crate::patch::{
    DiffOp, PatchModel, added, apply_all, apply_changes, apply_spec, attr_changes, changed_or_dropped,
    changes_view, child_ops, diff_spec, fits, fits_all, longer, ops_view, patch_view,
};
use crate::text::str_eq;
use crate::vdom::{ElementNode, VNode, clone_name, clone_nodes, node_model, nodes_view};

verus! {

/// The attribute changes that lead from `a` to `b`.
pub fn diff_attrs(a: &Attributes, b: &Attributes) -> (changes: Vec<
    (String, Option<String>, Option<String>),
>)
    ensures
        changes_view(changes@) == attr_changes(a@, b@),
{
    let mut changes: Vec<(String, Option<String>, Option<String>)> = Vec::new();
    let n = a.len();
    let mut i: usize = 0;
    assert(changes_view(changes@) =~= changed_or_dropped(a@, b@, 0));
    while i < n
        invariant
            n == a@.len(),
            i <= n,
            changes_view(changes@) == changed_or_dropped(a@, b@, i as int),
        decreases n - i,
    {
        let key = a.key_at(i);
        let old_val = a.value_at(i);
        let ghost before = changes@;
        match b.get(key.as_str()) {
            Some(v) => {
                if !str_eq(v.as_str(), old_val.as_str()) {
                    changes.push((key.clone(), Some(old_val.clone()), Some(v.clone())));
                    assert(changes_view(changes@) =~= changes_view(before).push(
                        (key@, Some(old_val@), Some(v@)),
                    ));
                }
            },
            None => {
                changes.push((key.clone(), Some(old_val.clone()), None));
                assert(changes_view(changes@) =~= changes_view(before).push(
                    (key@, Some(old_val@), None),
                ));
            },
        }
        i += 1;
    }
    let ghost first = changes_view(changes@);
    let m = b.len();
    let mut j: usize = 0;
    assert(changes_view(changes@) =~= first + added(a@, b@, 0));
    while j < m
        invariant
            m == b@.len(),
            j <= m,
            changes_view(changes@) == first + added(a@, b@, j as int),
        decreases m - j,
    {
        let key = b.key_at(j);
        let ghost before = changes@;
        if !a.contains_key(key.as_str()) {
            let value = b.value_at(j);
            changes.push((key.clone(), None, Some(value.clone())));
            assert(changes_view(changes@) =~= changes_view(before).push((key@, None, Some(value@))));
            assert(first + added(a@, b@, j as int).push((key@, None, Some(value@))) =~= (first + added(
                a@,
                b@,
                j as int,
            )).push((key@, None, Some(value@))));
        }
        j += 1;
    }
    changes
}

/// Compares two trees and returns the patch that leads from `old` to `new`,
/// or nothing where they agree.
///
/// Children are matched by position, not by identity.
pub fn diff_vnode(prev: &VNode, next: &VNode) -> (r: Option<DiffOp>)
    ensures
        patch_view(r) == diff_spec(prev@, next@),
    decreases prev,
{
    match (prev, next) {
        (VNode::Text(a), VNode::Text(b)) => {
            if !a.same_as(b) {
                Some(DiffOp::Replace(prev.clone(), next.clone()))
            } else {
                None
            }
        },
        (VNode::Element(a), VNode::Element(b)) => {
            if !str_eq(a.tag.as_str(), b.tag.as_str()) {
                return Some(DiffOp::Replace(prev.clone(), next.clone()));
            }
            let mut ops: Vec<DiffOp> = Vec::new();
            let attr_changes = diff_attrs(&a.attrs, &b.attrs);
            let ghost changes = changes_view(attr_changes@);
            if attr_changes.len() > 0 {
                ops.push(DiffOp::ChangeAttributes { tag: a.tag.clone(), changes: attr_changes });
            }
            let ghost head = ops_view(ops@);
            assert(head =~= if changes.len() == 0 {
                Seq::<PatchModel>::empty()
            } else {
                seq![PatchModel::ChangeAttributes { tag: a.tag@, changes }]
            });
            let ghost olds = nodes_view(a.children@);
            let ghost news = nodes_view(b.children@);
            let old_len = a.children.len();
            let new_len = b.children.len();
            let max_len = if old_len >= new_len {
                old_len
            } else {
                new_len
            };
            let mut i: usize = 0;
            assert(ops_view(ops@) =~= head + child_ops(olds, news, 0));
            while i < max_len
                invariant
                    decreases_to!(prev => a.children),
                    olds == nodes_view(a.children@),
                    news == nodes_view(b.children@),
                    old_len == a.children@.len(),
                    new_len == b.children@.len(),
                    max_len == longer(old_len as int, new_len as int),
                    i <= max_len,
                    ops_view(ops@) == head + child_ops(olds, news, i as int),
                decreases max_len - i,
            {
                let ghost before = ops@;
                let ghost rest = child_ops(olds, news, i as int);
                if i < old_len && i < new_len {
                    if let Some(d) = diff_vnode(&a.children[i], &b.children[i]) {
                        let ghost step = PatchModel::PatchChild(i as int, Box::new(d@));
                        ops.push(DiffOp::PatchChild(i, Box::new(d)));
                        assert(ops_view(ops@) =~= ops_view(before).push(step));
                        assert(head + rest.push(step) =~= (head + rest).push(step));
                    }
                } else if i < new_len {
                    let ghost step = PatchModel::AddChild(i as int, b.children@[i as int]@);
                    ops.push(DiffOp::AddChild(i, b.children[i].clone()));
                    assert(ops_view(ops@) =~= ops_view(before).push(step));
                    assert(head + rest.push(step) =~= (head + rest).push(step));
                } else {
                    let ghost step = PatchModel::RemoveChild(i as int);
                    ops.push(DiffOp::RemoveChild(i));
                    assert(ops_view(ops@) =~= ops_view(before).push(step));
                    assert(head + rest.push(step) =~= (head + rest).push(step));
                }
                i += 1;
            }
            if ops.len() == 0 {
                proof {
                    assert(ops_view(ops@).len() == 0);
                    assert(head.len() == 0);
                }
                None
            } else {
                proof {
                    let kids = child_ops(olds, news, max_len as int);
                    if head.len() == 0 {
                        assert(head + kids =~= kids);
                    }
                    assert(ops_view(ops@).len() > 0);
                    assert(prev@ == node_model(*prev));
                    assert(next@ == node_model(*next));
                }
                Some(DiffOp::Composite(ops))
            }
        },
        _ => Some(DiffOp::Replace(prev.clone(), next.clone())),
    }
}

/// A patch list that fits as far as `n` fits as far as any `k` below `n`.
pub proof fn lemma_fits_prefix(node: crate::vdom::NodeModel, ops: Seq<PatchModel>, n: int, k: int)
    requires
        fits_all(node, ops, n),
        0 <= k <= n <= ops.len(),
    ensures
        fits_all(node, ops, k),
    decreases n - k,
{
    if k < n {
        lemma_fits_prefix(node, ops, n - 1, k);
    }
}

/// Applies a patch to a tree and returns the patched tree; `node` itself is
/// left as it is.
pub fn apply_patch(node: &VNode, op: &DiffOp) -> (r: VNode)
    requires
        fits(node@, op@),
    ensures
        r@ == apply_spec(node@, op@),
    decreases op,
{
    match op {
        DiffOp::Replace(_, new_node) => new_node.clone(),
        DiffOp::ChangeAttributes { tag, changes } => {
            if let VNode::Element(elem) = node {
                let mut new_attrs = elem.attrs.clone();
                let n = changes.len();
                let mut i: usize = 0;
                while i < n
                    invariant
                        n == changes@.len(),
                        i <= n,
                        new_attrs@ == apply_changes(elem.attrs@, changes_view(changes@), i as int),
                    decreases n - i,
                {
                    match &changes[i].2 {
                        Some(v) => {
                            new_attrs.insert(changes[i].0.clone(), v.clone());
                        },
                        None => {
                            new_attrs.remove(changes[i].0.as_str());
                        },
                    }
                    i += 1;
                }
                VNode::Element(
                    ElementNode {
                        internal_id: elem.internal_id,
                        id: clone_name(&elem.id),
                        tag: tag.clone(),
                        attrs: new_attrs,
                        style: elem.style,
                        children: clone_nodes(&elem.children),
                    },
                )
            } else {
                node.clone()
            }
        },
        DiffOp::AddChild(index, child) => {
            if let VNode::Element(elem) = node {
                let mut new_children = clone_nodes(&elem.children);
                let ghost before = new_children@;
                new_children.insert(*index, child.clone());
                assert(nodes_view(new_children@) =~= nodes_view(elem.children@).insert(
                    *index as int,
                    child@,
                )) by {
                    assert(nodes_view(before) == nodes_view(elem.children@));
                    assert(nodes_view(new_children@) =~= nodes_view(before).insert(
                        *index as int,
                        child@,
                    ));
                }
                VNode::Element(
                    ElementNode {
                        internal_id: elem.internal_id,
                        id: clone_name(&elem.id),
                        tag: elem.tag.clone(),
                        attrs: elem.attrs.clone(),
                        style: elem.style,
                        children: new_children,
                    },
                )
            } else {
                node.clone()
            }
        },
        DiffOp::RemoveChild(index) => {
            if let VNode::Element(elem) = node {
                let mut new_children = clone_nodes(&elem.children);
                let ghost before = new_children@;
                let _ = new_children.remove(*index);
                assert(nodes_view(new_children@) =~= nodes_view(elem.children@).remove(
                    *index as int,
                )) by {
                    assert(nodes_view(before) == nodes_view(elem.children@));
                    assert(nodes_view(new_children@) =~= nodes_view(before).remove(*index as int));
                }
                VNode::Element(
                    ElementNode {
                        internal_id: elem.internal_id,
                        id: clone_name(&elem.id),
                        tag: elem.tag.clone(),
                        attrs: elem.attrs.clone(),
                        style: elem.style,
                        children: new_children,
                    },
                )
            } else {
                node.clone()
            }
        },
        DiffOp::PatchChild(index, subop) => {
            if let VNode::Element(elem) = node {
                let mut new_children = clone_nodes(&elem.children);
                if *index < elem.children.len() {
                    let ghost before = new_children@;
                    let patched = apply_patch(&elem.children[*index], subop);
                    let ghost patched_view = patched@;
                    new_children.set(*index, patched);
                    assert(nodes_view(new_children@) =~= nodes_view(elem.children@).update(
                        *index as int,
                        patched_view,
                    )) by {
                        assert(nodes_view(before) == nodes_view(elem.children@));
                        assert(nodes_view(new_children@) =~= nodes_view(before).update(
                            *index as int,
                            patched_view,
                        ));
                    }
                }
                VNode::Element(
                    ElementNode {
                        internal_id: elem.internal_id,
                        id: clone_name(&elem.id),
                        tag: elem.tag.clone(),
                        attrs: elem.attrs.clone(),
                        style: elem.style,
                        children: new_children,
                    },
                )
            } else {
                node.clone()
            }
        },
        DiffOp::Composite(ops) => {
            let mut result = node.clone();
            let n = ops.len();
            let mut i: usize = 0;
            while i < n
                invariant
                    decreases_to!(op => ops),
                    n == ops@.len(),
                    i <= n,
                    fits_all(node@, ops_view(ops@), n as int),
                    result@ == apply_all(node@, ops_view(ops@), i as int),
                decreases n - i,
            {
                proof {
                    lemma_fits_prefix(node@, ops_view(ops@), n as int, i as int + 1);
                }
                result = apply_patch(&result, &ops[i]);
                i += 1;
            }
            result
        },
    }
}

} // verus!
