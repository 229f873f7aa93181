//! The layout engine's tree, as far as the synchronizer works on it.
//!
//! The engine keeps the data, the child list and the parent of every live
//! node under one handle. Nothing in this file is proved: each function
//! states what the engine's own code does to child lists and parents, and
//! asks for what that code indexes without a check.
use vstd::prelude::*;
use crate::vdom::TextNode;

verus! {

/// What a layout node carries for the measurement of its content.
#[derive(Debug)]
pub enum NodeContext {
    Text(TextNode),
    Element,
}

/// The engine's tree, `taffy::TaffyTree`; nothing of its inside is known here.
#[verifier::external_type_specification]
#[verifier::external_body]
#[verifier::reject_recursive_types(C)]
pub struct ExTaffyTree<C>(taffy::TaffyTree<C>);

/// The engine's error, `taffy::TaffyError`; nothing of its inside is known here.
#[verifier::external_type_specification]
#[verifier::external_body]
pub struct ExTaffyError(taffy::TaffyError);

/// The child list of every live node of the engine's tree, by handle: what
/// `TaffyTree::children` answers for it.
pub uninterp spec fn layout_children(tree: taffy::TaffyTree<NodeContext>) -> Map<u64, Seq<u64>>;

/// The parent of every live node of the engine's tree, by handle: what
/// `TaffyTree::parent` answers for it.
pub uninterp spec fn layout_parents(tree: taffy::TaffyTree<NodeContext>) -> Map<u64, Option<u64>>;

/// The live nodes of the engine's tree for which it holds no computed
/// layout, by handle: those for which `TaffyTree::dirty` answers yes.
pub uninterp spec fn layout_dirty(tree: taffy::TaffyTree<NodeContext>) -> Set<u64>;

/// Following parents from `h` ends at a node without a parent after `n`
/// steps at most, and every node on the way is live.
pub open spec fn rooted(parents: Map<u64, Option<u64>>, h: u64, n: nat) -> bool
    decreases n,
{
    parents.contains_key(h) && match parents[h] {
        None => true,
        Some(p) => n > 0 && rooted(parents, p, (n - 1) as nat),
    }
}

/// The parents after `kids` were given to the new node `h`.
pub open spec fn adopted(parents: Map<u64, Option<u64>>, kids: Seq<u64>, h: u64) -> Map<
    u64,
    Option<u64>,
> {
    Map::new(
        |x: u64| parents.contains_key(x) || x == h,
        |x: u64|
            if x == h {
                None
            } else if kids.contains(x) {
                Some(h)
            } else {
                parents[x]
            },
    )
}

/// `list` without every occurrence of `h`.
pub open spec fn without(list: Seq<u64>, h: u64) -> Seq<u64> {
    list.filter(|c: u64| c != h)
}

/// The child lists after the node `h` was dropped: it leaves the list of its parent.
pub open spec fn children_without(
    children: Map<u64, Seq<u64>>,
    parents: Map<u64, Option<u64>>,
    h: u64,
) -> Map<u64, Seq<u64>> {
    Map::new(
        |x: u64| children.contains_key(x) && x != h,
        |x: u64|
            if parents[h] == Some(x) {
                without(children[x], h)
            } else {
                children[x]
            },
    )
}

/// The parents after the node `h` was dropped: its children have none.
pub open spec fn parents_without(
    children: Map<u64, Seq<u64>>,
    parents: Map<u64, Option<u64>>,
    h: u64,
) -> Map<u64, Option<u64>> {
    Map::new(
        |x: u64| parents.contains_key(x) && x != h,
        |x: u64|
            if children[h].contains(x) {
                None
            } else {
                parents[x]
            },
    )
}

/// `TaffyTree::new`: a tree without nodes.
#[verifier::external_body]
pub(crate) fn tree_new() -> (r: taffy::TaffyTree<NodeContext>)
    ensures
        layout_children(r).dom() == Set::<u64>::empty(),
        layout_parents(r).dom() == Set::<u64>::empty(),
{
    taffy::TaffyTree::new()
}

/// `TaffyTree::new_leaf_with_context`, with the engine's default style: it
/// always succeeds, and adds one node that was not live before, without
/// children and without a parent.
#[verifier::external_body]
pub(crate) fn tree_new_leaf(tree: &mut taffy::TaffyTree<NodeContext>, context: NodeContext) -> (r:
    Result<u64, taffy::TaffyError>)
    ensures
        r is Ok,
        !layout_children(*old(tree)).contains_key(r->Ok_0),
        layout_children(*final(tree)) == layout_children(*old(tree)).insert(r->Ok_0, Seq::empty()),
        layout_parents(*final(tree)) == layout_parents(*old(tree)).insert(r->Ok_0, None),
{
    tree.new_leaf_with_context(taffy::Style::DEFAULT, context).map(u64::from)
}

/// `TaffyTree::new_with_children`, with the engine's default style: it always
/// succeeds, and adds one node that was not live before, without a parent,
/// whose children are `kids`; each of them gets the new node as its parent.
/// The engine indexes its nodes by each of `kids`, so they have to be live.
#[verifier::external_body]
pub(crate) fn tree_new_with_children(tree: &mut taffy::TaffyTree<NodeContext>, kids: &Vec<u64>) -> (r:
    Result<u64, taffy::TaffyError>)
    requires
        forall|i: int| 0 <= i < kids@.len() ==> layout_parents(*old(tree)).contains_key(#[trigger] kids@[i]),
    ensures
        r is Ok,
        !layout_children(*old(tree)).contains_key(r->Ok_0),
        layout_children(*final(tree)) == layout_children(*old(tree)).insert(r->Ok_0, kids@),
        layout_parents(*final(tree)) == adopted(layout_parents(*old(tree)), kids@, r->Ok_0),
{
    let ids: Vec<taffy::NodeId> = kids.iter().map(|k| taffy::NodeId::from(*k)).collect();
    tree.new_with_children(taffy::Style::DEFAULT, &ids).map(u64::from)
}

/// `TaffyTree::add_child`: `child` goes to the end of the children of
/// `parent` and gets it as its parent; then the engine walks from `parent`
/// up to the root to mark the way dirty. It indexes its nodes by both
/// handles and by every node on that way.
#[verifier::external_body]
pub(crate) fn tree_add_child(tree: &mut taffy::TaffyTree<NodeContext>, parent: u64, child: u64) -> (r:
    Result<(), taffy::TaffyError>)
    requires
        layout_children(*old(tree)).contains_key(parent),
        layout_parents(*old(tree)).contains_key(child),
        exists|n: nat| rooted(layout_parents(*old(tree)).insert(child, Some(parent)), parent, n),
    ensures
        r is Ok,
        layout_children(*final(tree)) == layout_children(*old(tree)).insert(
            parent,
            layout_children(*old(tree))[parent].push(child),
        ),
        layout_parents(*final(tree)) == layout_parents(*old(tree)).insert(child, Some(parent)),
{
    tree.add_child(taffy::NodeId::from(parent), taffy::NodeId::from(child))
}

/// `TaffyTree::insert_child_at_index`: an index beyond the number of
/// children of `parent` is an error and changes nothing; otherwise `child`
/// is inserted there and gets `parent` as its parent, and the engine walks
/// from `parent` up to the root to mark the way dirty.
#[verifier::external_body]
pub(crate) fn tree_insert_child(
    tree: &mut taffy::TaffyTree<NodeContext>,
    parent: u64,
    index: usize,
    child: u64,
) -> (r: Result<(), taffy::TaffyError>)
    requires
        layout_children(*old(tree)).contains_key(parent),
        layout_parents(*old(tree)).contains_key(child),
        exists|n: nat| rooted(layout_parents(*old(tree)).insert(child, Some(parent)), parent, n),
    ensures
        r is Ok <==> index <= layout_children(*old(tree))[parent].len(),
        r is Err ==> layout_children(*final(tree)) == layout_children(*old(tree)) && layout_parents(
            *final(tree),
        ) == layout_parents(*old(tree)),
        r is Ok ==> layout_children(*final(tree)) == layout_children(*old(tree)).insert(
            parent,
            layout_children(*old(tree))[parent].insert(index as int, child),
        ) && layout_parents(*final(tree)) == layout_parents(*old(tree)).insert(child, Some(parent)),
{
    tree.insert_child_at_index(taffy::NodeId::from(parent), index, taffy::NodeId::from(child))
}

/// `TaffyTree::replace_child_at_index`: an index that is not below the
/// number of children of `parent` is an error and changes nothing; otherwise
/// `child` takes the place of the child at `index`, which is returned and
/// left without a parent, and the engine walks from `parent` up to the root
/// to mark the way dirty.
#[verifier::external_body]
pub(crate) fn tree_replace_child(
    tree: &mut taffy::TaffyTree<NodeContext>,
    parent: u64,
    index: usize,
    child: u64,
) -> (r: Result<u64, taffy::TaffyError>)
    requires
        layout_children(*old(tree)).contains_key(parent),
        layout_parents(*old(tree)).contains_key(child),
        index < layout_children(*old(tree))[parent].len() ==> layout_parents(
            *old(tree),
        ).contains_key(layout_children(*old(tree))[parent][index as int]) && exists|n: nat|
            rooted(
                layout_parents(*old(tree)).insert(child, Some(parent)).insert(
                    layout_children(*old(tree))[parent][index as int],
                    None,
                ),
                parent,
                n,
            ),
    ensures
        r is Ok <==> index < layout_children(*old(tree))[parent].len(),
        r is Err ==> layout_children(*final(tree)) == layout_children(*old(tree)) && layout_parents(
            *final(tree),
        ) == layout_parents(*old(tree)),
        r is Ok ==> r->Ok_0 == layout_children(*old(tree))[parent][index as int]
            && layout_children(*final(tree)) == layout_children(*old(tree)).insert(
            parent,
            layout_children(*old(tree))[parent].update(index as int, child),
        ) && layout_parents(*final(tree)) == layout_parents(*old(tree)).insert(
            child,
            Some(parent),
        ).insert(r->Ok_0, None),
{
    tree.replace_child_at_index(taffy::NodeId::from(parent), index, taffy::NodeId::from(child)).map(
        u64::from,
    )
}

/// `TaffyTree::remove`: the node leaves the child list of its parent, its
/// own children are left without a parent, and it is dropped. The engine
/// indexes its nodes by the handle and by each of its children.
#[verifier::external_body]
pub(crate) fn tree_remove(tree: &mut taffy::TaffyTree<NodeContext>, h: u64) -> (r: Result<
    u64,
    taffy::TaffyError,
>)
    requires
        layout_children(*old(tree)).contains_key(h),
        layout_parents(*old(tree)).contains_key(h),
        forall|i: int|
            0 <= i < layout_children(*old(tree))[h].len() ==> layout_parents(
                *old(tree),
            ).contains_key(#[trigger] layout_children(*old(tree))[h][i]),
    ensures
        r is Ok,
        r->Ok_0 == h,
        layout_children(*final(tree)) == children_without(
            layout_children(*old(tree)),
            layout_parents(*old(tree)),
            h,
        ),
        layout_parents(*final(tree)) == parents_without(
            layout_children(*old(tree)),
            layout_parents(*old(tree)),
            h,
        ),
{
    tree.remove(taffy::NodeId::from(h)).map(u64::from)
}

/// `TaffyTree::parent`: the parent of a live node.
#[verifier::external_body]
pub(crate) fn tree_parent(tree: &taffy::TaffyTree<NodeContext>, h: u64) -> (r: Option<u64>)
    requires
        layout_parents(*tree).contains_key(h),
    ensures
        r == layout_parents(*tree)[h],
{
    tree.parent(taffy::NodeId::from(h)).map(u64::from)
}

/// `TaffyTree::children`: a copy of the child list of a live node; it always succeeds.
#[verifier::external_body]
pub(crate) fn tree_children(tree: &taffy::TaffyTree<NodeContext>, h: u64) -> (r: Result<
    Vec<u64>,
    taffy::TaffyError,
>)
    requires
        layout_children(*tree).contains_key(h),
    ensures
        r is Ok,
        r->Ok_0@ == layout_children(*tree)[h],
{
    tree.children(taffy::NodeId::from(h)).map(|v| v.into_iter().map(u64::from).collect())
}

/// `TaffyTree::dirty`: whether the engine holds no computed layout for a live
/// node. It always succeeds, and its answer is read from the tree alone:
/// the node's cache of computed layouts is empty.
#[verifier::external_body]
pub(crate) fn tree_dirty(tree: &taffy::TaffyTree<NodeContext>, h: u64) -> (r: Result<
    bool,
    taffy::TaffyError,
>)
    requires
        layout_children(*tree).contains_key(h),
    ensures
        r is Ok,
        r->Ok_0 == layout_dirty(*tree).contains(h),
{
    tree.dirty(taffy::NodeId::from(h))
}

} // verus!
