//! The frame driver: what a frame has to do, decided from the state of the
//! document and from what the host reports back.
use vstd::prelude::*;
use vstd::std_specs::hash::*;
use crate::document::VDom;
use crate::engine::{layout_dirty, tree_dirty};
use crate::layout::{LayoutError, LayoutMapping};
use crate::markup::{Markup, ParseError, describes, document_error, parse_html_to_vdom};
use crate::patch::diff_spec;
use crate::sync::kept;
use crate::vdom::{NodeModel, VNode, nodes_view};

verus! {

/// What the host reports to the frame driver.
pub enum FrameEvent {
    /// A frame begins.
    Begin,
    /// The scripts have run and left this tree.
    Committed(VNode),
}

/// What the host has to do next.
#[derive(Clone, Copy, Debug, PartialEq, Eq, Structural)]
pub enum FrameAction {
    /// Run the hooks of the first frame, then report the tree.
    RunLoadHooks,
    /// Run the hooks of a later frame, then report the tree.
    RunUpdateHooks,
    /// Nothing has changed: the frame is not dirty.
    Skip,
    /// The layout tree has followed the document: hand the queued styles to
    /// the engine and, if the root is dirty, compute the layout and paint.
    Paint { root: u64 },
}

/// The document with its layout tree, from frame to frame.
pub struct Dynamite {
    /// The canonical tree, its templates and its names.
    pub vdom: VDom,
    /// The layout tree and the identity index.
    pub layout: LayoutMapping,
    /// Whether no frame has begun yet.
    pub first_run: bool,
}

/// One paint call: a node with its layout handle and the step of its parent.
#[derive(Clone, Copy, Debug, PartialEq, Eq, Structural)]
pub struct PaintStep {
    /// The identity of the node to paint.
    pub identity: u128,
    /// Its layout handle.
    pub handle: u64,
    /// The position of the step of its parent in the plan: the offset of
    /// the node is relative to that of its parent.
    pub parent: Option<usize>,
    /// Whether the node is a text.
    pub text: bool,
}

/// The paint calls for the first `n` trees of `nodes`, the first of them at the position `base`.
pub open spec fn plans_among(
    index: Map<u128, u64>,
    nodes: Seq<NodeModel>,
    n: int,
    parent: Option<usize>,
    base: int,
) -> Seq<PaintStep>
    decreases nodes, n,
{
    if n <= 0 || n > nodes.len() {
        Seq::empty()
    } else {
        let before = plans_among(index, nodes, n - 1, parent, base);
        before + plan_of(index, nodes[n - 1], parent, base + before.len())
    }
}

/// The paint calls for a tree, the first of them at the position `base`
/// of the plan: a registered node is painted before its children, from left
/// to right; a node that is not registered is left out with all below it.
pub open spec fn plan_of(index: Map<u128, u64>, node: NodeModel, parent: Option<usize>, base: int) -> Seq<
    PaintStep,
>
    decreases node, 0int,
{
    if !index.contains_key(node.id()) {
        Seq::empty()
    } else {
        match node {
            NodeModel::Element { identity, children, .. } => seq![
                PaintStep { identity, handle: index[identity], parent, text: false },
            ] + plans_among(index, children, children.len() as int, Some(base as usize), base + 1),
            NodeModel::Text { identity, .. } => seq![
                PaintStep { identity, handle: index[identity], parent, text: true },
            ],
        }
    }
}

impl LayoutMapping {
    /// Adds the paint calls for the tree of `node` to `plan`.
    pub fn plan_paint(&self, node: &VNode, parent: Option<usize>, plan: &mut Vec<PaintStep>)
        ensures
            final(plan)@ == old(plan)@ + plan_of(
                self.index(),
                node@,
                parent,
                old(plan)@.len() as int,
            ),
        decreases node,
    {
        broadcast use group_hash_axioms;

        let ghost start = plan@;
        let handle = match self.id_map.get(&node.get_internal_id()) {
            Some(h) => *h,
            None => {
                assert(plan@ =~= plan@ + Seq::<PaintStep>::empty());
                return ;
            },
        };
        match node {
            VNode::Text(t) => {
                plan.push(PaintStep { identity: t.internal_id, handle, parent, text: true });
                assert(plan@ =~= start + seq![
                    PaintStep { identity: t.internal_id, handle, parent, text: true },
                ]);
            },
            VNode::Element(el) => {
                let own = plan.len();
                let step = PaintStep { identity: el.internal_id, handle, parent, text: false };
                plan.push(step);
                let ghost models = nodes_view(el.children@);
                let ghost head = start + seq![step];
                assert(plan@ =~= head + plans_among(self.index(), models, 0, Some(own), own + 1));
                let n = el.children.len();
                let mut i: usize = 0;
                while i < n
                    invariant
                        n == el.children@.len(),
                        models == nodes_view(el.children@),
                        i <= n,
                        decreases_to!(node => el.children),
                        head.len() == own + 1,
                        plan@ == head + plans_among(
                            self.index(),
                            models,
                            i as int,
                            Some(own),
                            own + 1,
                        ),
                    decreases n - i,
                {
                    assert(models[i as int] == el.children@[i as int]@);
                    let ghost before = plans_among(
                        self.index(),
                        models,
                        i as int,
                        Some(own),
                        own + 1,
                    );
                    self.plan_paint(&el.children[i], Some(own), plan);
                    assert(head + before + plan_of(
                        self.index(),
                        models[i as int],
                        Some(own),
                        own + 1 + before.len(),
                    ) =~= head + (before + plan_of(
                        self.index(),
                        models[i as int],
                        Some(own),
                        own + 1 + before.len(),
                    )));
                    i += 1;
                }
                assert(start + (seq![step] + plans_among(
                    self.index(),
                    models,
                    n as int,
                    Some(own),
                    own + 1,
                )) =~= head + plans_among(self.index(), models, n as int, Some(own), own + 1));
            },
        }
    }

    /// Whether the engine holds no computed layout for the live node `h`.
    pub fn is_dirty(&self, h: u64) -> (r: bool)
        requires
            self.live(h),
        ensures
            r == self.dirty(h),
    {
        match tree_dirty(&self.taffy, h) {
            Ok(dirty) => dirty,
            Err(_) => vstd::pervasive::unreached(),
        }
    }

    /// Whether the layout node `h` is dirty: the engine holds no computed
    /// layout for it, so its geometry has to be computed before painting.
    pub open spec fn dirty(&self, h: u64) -> bool {
        layout_dirty(self.taffy).contains(h)
    }
}

impl Dynamite {
    /// The layout tree is well formed.
    pub open spec fn wf(&self) -> bool {
        self.layout.wf()
    }

    /// Builds the document of a parsed page and the layout tree of its body.
    pub fn new(document: &Markup) -> (r: Result<Dynamite, ParseError>)
        ensures
            match r {
                Ok(d) => document_error(document@).is_none() && describes(document@, d.vdom)
                    && d.first_run && d.wf() && d.layout.index().contains_key(d.vdom.root@.id())
                    && (d.vdom.root@.distinct_ids() ==> d.layout.mirrors(d.vdom.root@)),
                Err(e) => document_error(document@) == Some(e),
            },
    {
        let vdom = match parse_html_to_vdom(document) {
            Ok(v) => v,
            Err(e) => {
                return Err(e);
            },
        };
        let mut layout = LayoutMapping::new();
        let _ = layout.build_tree(&vdom.root, None);
        assert(vdom.root@.has_id(vdom.root@.id()));
        Ok(Dynamite { vdom, layout, first_run: true })
    }

    /// One step of a frame.
    ///
    /// When a frame begins, the answer is which hooks to run: those of the
    /// first frame once, those of later frames ever after. When the scripts
    /// have committed a tree, it is diffed against the canonical tree:
    /// without a patch the frame is skipped and nothing changes; with one,
    /// the layout tree follows the patch, the committed tree becomes the
    /// canonical tree, and the answer names the layout handle of its root.
    /// If the layout tree cannot follow, the frame fails and the canonical
    /// tree stays as it was.
    pub fn run_frame(&mut self, event: FrameEvent) -> (r: Result<FrameAction, LayoutError>)
        requires
            old(self).wf(),
        ensures
            final(self).wf(),
            event is Begin ==> {
                &&& r == Ok::<FrameAction, LayoutError>(
                    if old(self).first_run {
                        FrameAction::RunLoadHooks
                    } else {
                        FrameAction::RunUpdateHooks
                    },
                )
                &&& !final(self).first_run
                &&& final(self).vdom == old(self).vdom
                &&& final(self).layout == old(self).layout
            },
            event matches FrameEvent::Committed(tree) ==> {
                &&& final(self).first_run == old(self).first_run
                &&& diff_spec(old(self).vdom.root@, tree@) is None ==> {
                    &&& r == Ok::<FrameAction, LayoutError>(FrameAction::Skip)
                    &&& final(self).vdom == old(self).vdom
                    &&& final(self).layout == old(self).layout
                }
                &&& diff_spec(old(self).vdom.root@, tree@) is Some ==> match r {
                    Ok(action) => {
                        &&& action matches FrameAction::Paint { root }
                        &&& final(self).layout.live(root)
                        &&& final(self).layout.index().contains_key(tree@.id())
                        &&& final(self).layout.index()[tree@.id()] == root
                        &&& final(self).vdom.root == tree
                    },
                    Err(_) => final(self).vdom == old(self).vdom,
                }
                &&& old(self).layout.ready(old(self).vdom.root@, tree@) ==> {
                    &&& r is Ok
                    &&& final(self).layout.mirrors(final(self).vdom.root@)
                    &&& forall|id: u128|
                        kept(old(self).vdom.root@, tree@, id) ==> #[trigger] final(self).layout.same_entry(old(self).layout, id)
                }
            },
    {
        broadcast use group_hash_axioms;

        match event {
            FrameEvent::Begin => {
                if self.first_run {
                    self.first_run = false;
                    Ok(FrameAction::RunLoadHooks)
                } else {
                    Ok(FrameAction::RunUpdateHooks)
                }
            },
            FrameEvent::Committed(tree) => {
                let ghost before = *self;
                match self.layout.reconcile(&self.vdom.root, &tree) {
                    Ok(true) => {},
                    Ok(false) => {
                        return Ok(FrameAction::Skip);
                    },
                    Err(e) => {
                        return Err(e);
                    },
                }
                let root = match self.layout.id_map.get(&tree.get_internal_id()) {
                    Some(h) => *h,
                    None => {
                        proof {
                            assert(tree@.has_id(tree@.id()));
                            if before.layout.ready(before.vdom.root@, tree@) {
                                self.layout.lemma_mirror_registered(tree@, tree@.id());
                            }
                        }
                        self.layout.build_tree(&tree, None)
                    },
                };
                self.vdom.root = tree;
                Ok(FrameAction::Paint { root })
            },
        }
    }

    /// The paint calls for the canonical tree, in the order in which they are made.
    pub fn paint_plan(&self) -> (plan: Vec<PaintStep>)
        ensures
            plan@ == plan_of(self.layout.index(), self.vdom.root@, None, 0),
    {
        let mut plan: Vec<PaintStep> = Vec::new();
        self.layout.plan_paint(&self.vdom.root, None, &mut plan);
        assert(Seq::<PaintStep>::empty() + plan_of(self.layout.index(), self.vdom.root@, None, 0)
            =~= plan_of(self.layout.index(), self.vdom.root@, None, 0));
        plan
    }
}

} // verus!
