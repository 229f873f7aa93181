//! What scripts see of the document: texts that are rendered from
//! templates, and the hooks that an element names.
use vstd::prelude::*;
use vstd::string::*;
use crate::attributes::{Attributes, Entries, value_of};
use crate::document::{find, find_in, holder, lemma_holder, replaced};
use crate::vdom::{NodeModel, VNode, nodes_view};

verus! {

/// The pattern of a placeholder: a name in double braces, such as `{{ name }}`.
pub const PLACEHOLDER: &'static str = r"\{\{\s*(\w+)\s*\}\}";

/// The parts of `text` between the matches of `pattern`, from
/// `Regex::split`; nothing where `pattern` is no regular expression.
pub uninterp spec fn pattern_gaps(pattern: Seq<char>, text: Seq<char>) -> Option<Seq<Seq<char>>>;

/// What the first group of `pattern` holds in each of its matches in
/// `text`, if it took part in the match, from `Regex::captures_iter`;
/// nothing at all where `pattern` is no regular expression.
pub uninterp spec fn pattern_names(pattern: Seq<char>, text: Seq<char>) -> Option<
    Seq<Option<Seq<char>>>,
>;

/// The character sequences of a list of strings.
pub open spec fn strings_view(texts: Seq<String>) -> Seq<Seq<char>> {
    Seq::new(texts.len(), |i: int| texts[i]@)
}

/// The character sequences of an optional list of strings.
pub open spec fn parts_view(parts: Option<Vec<String>>) -> Option<Seq<Seq<char>>> {
    match parts {
        Some(v) => Some(strings_view(v@)),
        None => None,
    }
}

/// The character sequences of a list of optional strings.
pub open spec fn names_view(names: Seq<Option<String>>) -> Seq<Option<Seq<char>>> {
    Seq::new(names.len(), |i: int| crate::vdom::name_view(names[i]))
}

/// The character sequences of an optional list of optional strings.
pub open spec fn groups_view(groups: Option<Vec<Option<String>>>) -> Option<
    Seq<Option<Seq<char>>>,
> {
    match groups {
        Some(v) => Some(names_view(v@)),
        None => None,
    }
}

/// `Regex::split`, on the regular expression that `Regex::new` makes of
/// `pattern`: the parts of `text` that no match covers, in order.
///
/// Trusted: the parts are a function of the pattern and the text alone;
/// nothing else is claimed of them.
#[verifier::external_body]
fn split_at_matches(pattern: &str, text: &str) -> (r: Option<Vec<String>>)
    ensures
        parts_view(r) == pattern_gaps(pattern@, text@),
{
    regex::Regex::new(pattern).ok().map(|re| re.split(text).map(String::from).collect())
}

/// `Regex::captures_iter`, on the regular expression that `Regex::new`
/// makes of `pattern`: for each match, in order, the text of the first
/// group, if the group took part in it.
///
/// Trusted: the texts are a function of the pattern and the text alone;
/// nothing else is claimed of them.
#[verifier::external_body]
fn first_groups(pattern: &str, text: &str) -> (r: Option<Vec<Option<String>>>)
    ensures
        groups_view(r) == pattern_names(pattern@, text@),
{
    regex::Regex::new(pattern).ok().map(
        |re| re.captures_iter(text).map(|c| c.get(1).map(|m| String::from(m.as_str()))).collect(),
    )
}

/// What a name stands for: its value in `values`; nothing where it has
/// none or there is no name.
pub open spec fn substitute(values: Entries, key: Option<Seq<char>>) -> Seq<char> {
    match key {
        Some(k) => match value_of(values, k) {
            Some(v) => v,
            None => Seq::empty(),
        },
        None => Seq::empty(),
    }
}

/// The first `n` literals, each followed by what the name at its position stands for.
pub open spec fn interleaved(
    literals: Seq<Seq<char>>,
    keys: Seq<Option<Seq<char>>>,
    values: Entries,
    n: int,
) -> Seq<char>
    decreases n,
{
    if n <= 0 || n > literals.len() {
        Seq::empty()
    } else {
        let before = interleaved(literals, keys, values, n - 1) + literals[n - 1];
        if n - 1 < keys.len() {
            before + substitute(values, keys[n - 1])
        } else {
            before
        }
    }
}

/// Puts a template together again: every literal part, each followed by
/// the value of the name that stood behind it.
pub fn interpolate(literals: &Vec<String>, keys: &Vec<Option<String>>, values: &Attributes) -> (r:
    String)
    ensures
        r@ == interleaved(
            strings_view(literals@),
            names_view(keys@),
            values@,
            literals@.len() as int,
        ),
{
    let mut out = String::new();
    let n = literals.len();
    let mut i: usize = 0;
    while i < n
        invariant
            n == literals@.len(),
            i <= n,
            out@ == interleaved(strings_view(literals@), names_view(keys@), values@, i as int),
        decreases n - i,
    {
        out.append(literals[i].as_str());
        if i < keys.len() {
            assert(out@ + Seq::<char>::empty() =~= out@);
            match &keys[i] {
                Some(key) => match values.get(key.as_str()) {
                    Some(v) => {
                        out.append(v.as_str());
                    },
                    None => {},
                },
                None => {},
            }
        }
        i += 1;
    }
    out
}

/// What a template renders to with the given values: its parts between
/// the placeholders, each followed by the value of the name in the
/// placeholder behind it.
pub open spec fn rendered_text(template: Seq<char>, values: Entries) -> Seq<char> {
    match (pattern_gaps(PLACEHOLDER@, template), pattern_names(PLACEHOLDER@, template)) {
        (Some(gaps), Some(names)) => interleaved(gaps, names, values, gaps.len() as int),
        _ => template,
    }
}

/// Renders a template: every placeholder gives way to the value of its name, or to nothing.
pub fn render_template(template: &str, values: &Attributes) -> (r: String)
    ensures
        r@ == rendered_text(template@, values@),
{
    match (split_at_matches(PLACEHOLDER, template), first_groups(PLACEHOLDER, template)) {
        (Some(literals), Some(keys)) => interpolate(&literals, &keys, values),
        _ => template.to_owned(),
    }
}

/// `node` with every text below it rendered from its template.
pub open spec fn rendered_tree(node: NodeModel, values: Entries) -> NodeModel
    decreases node,
{
    match node {
        NodeModel::Element { identity, name, tag, attrs, style, children } => NodeModel::Element {
            identity,
            name,
            tag,
            attrs,
            style,
            children: Seq::new(
                children.len(),
                |i: int|
                    if 0 <= i < children.len() {
                        rendered_tree(children[i], values)
                    } else {
                        arbitrary()
                    },
            ),
        },
        NodeModel::Text { identity, name, attrs, style, template, rendered } => NodeModel::Text {
            identity,
            name,
            attrs,
            style,
            template,
            rendered: rendered_text(template, values),
        },
    }
}

/// Renders every text of the subtree from its template with the given values.
pub fn render_texts_in_subtree(node: &mut VNode, ctx: &Attributes)
    ensures
        final(node)@ == rendered_tree(old(node)@, ctx@),
    decreases *old(node),
{
    match node {
        VNode::Text(t) => {
            t.rendered = render_template(t.template.as_str(), ctx);
        },
        VNode::Element(el) => {
            let ghost orig = el.children@;
            let ghost models = nodes_view(orig);
            let ghost start = *el;
            assert(*old(node) == VNode::Element(start));
            let n = el.children.len();
            let mut i: usize = 0;
            while i < n
                invariant
                    n == el.children@.len(),
                    n == orig.len(),
                    models == nodes_view(orig),
                    i <= n,
                    decreases_to!(*old(node) => orig),
                    forall|j: int| i <= j < n ==> el.children@[j] == orig[j],
                    forall|j: int|
                        0 <= j < i ==> (#[trigger] el.children@[j])@ == rendered_tree(
                            models[j],
                            ctx@,
                        ),
                    el.internal_id == start.internal_id,
                    el.id == start.id,
                    el.tag == start.tag,
                    el.attrs == start.attrs,
                    el.style == start.style,
                decreases n - i,
            {
                assert(models[i as int] == orig[i as int]@);
                render_texts_in_subtree(&mut el.children[i], ctx);
                i += 1;
            }
            proof {
                let wanted = rendered_tree(old(node)@, ctx@);
                assert(old(node)@.kids() == models);
                assert(wanted.kids() =~= nodes_view(el.children@));
            }
        },
    }
}

/// What rendering the texts below the first node that `id` names leaves of `node`.
pub open spec fn rendered_at(node: NodeModel, id: u128, values: Entries) -> NodeModel {
    match find(node, id) {
        Some(target) => replaced(node, id, rendered_tree(target, values)),
        None => node,
    }
}

/// Where `id` names a node of the tree, that node is what `replaced` replaces.
proof fn lemma_replaced_below(children: Seq<NodeModel>, id: u128, at: int)
    requires
        0 <= at < children.len(),
        holder(children, 0, id) == at,
    ensures
        find_in(children, 0, id) == find(children[at], id),
        find(children[at], id) is Some,
{
    lemma_holder(children, 0, id);
}

/// Renders every text below the first node that `id` names from its
/// template with the given values. Tells whether there is such a node.
pub fn render_texts_at(node: &mut VNode, id: u128, ctx: &Attributes) -> (found: bool)
    ensures
        found == find(old(node)@, id).is_some(),
        final(node)@ == rendered_at(old(node)@, id, ctx@),
    decreases *old(node),
{
    if node.get_internal_id() == id {
        render_texts_in_subtree(node, ctx);
        return true;
    }
    match node {
        VNode::Text(_) => false,
        VNode::Element(el) => {
            let ghost orig = el.children@;
            let ghost models = nodes_view(orig);
            let ghost start = *el;
            assert(*old(node) == VNode::Element(start));
            let n = el.children.len();
            let mut i: usize = 0;
            proof {
                lemma_holder(models, 0, id);
            }
            while i < n && el.children[i].find_by_internal_id(id).is_none()
                invariant
                    n == el.children@.len(),
                    el.children@ == orig,
                    models == nodes_view(orig),
                    *el == start,
                    i <= n,
                    holder(models, 0, id) == holder(models, i as int, id),
                decreases n - i,
            {
                assert(models[i as int] == orig[i as int]@);
                i += 1;
            }
            proof {
                lemma_holder(models, i as int, id);
                if i < n {
                    assert(models[i as int] == orig[i as int]@);
                    assert(holder(models, i as int, id) == i);
                    lemma_replaced_below(models, id, i as int);
                }
            }
            if i < n {
                let _ = render_texts_at(&mut el.children[i], id, ctx);
                proof {
                    assert(el.children@.len() == n);
                    assert(forall|j: int| 0 <= j < n && j != i ==> el.children@[j] == orig[j]);
                    assert(nodes_view(el.children@) =~= models.update(
                        i as int,
                        rendered_at(models[i as int], id, ctx@),
                    ));
                }
                true
            } else {
                false
            }
        },
    }
}

/// The calls that the hooks of an element stand for.
pub struct Hooks {
    /// The call for every frame after the first.
    pub onupdate: Option<String>,
    /// The call for the first frame.
    pub onload: Option<String>,
}

/// The call of the function that the attribute `key` names: the name followed by `()`.
pub open spec fn hook_call(attrs: Entries, key: Seq<char>) -> Option<Seq<char>> {
    match value_of(attrs, key) {
        Some(name) => Some(name + "()"@),
        None => None,
    }
}

/// The call that the attribute `key` of `attrs` stands for.
fn read_hook(attrs: &Attributes, key: &str) -> (r: Option<String>)
    ensures
        crate::vdom::name_view(r) == hook_call(attrs@, key@),
{
    match attrs.get(key) {
        Some(name) => {
            let mut call = name.clone();
            call.append("()");
            Some(call)
        },
        None => None,
    }
}

/// The hooks of the root of the document: what its `onupdate` and `onload`
/// attributes name. A text has none.
pub fn search_onupdate_functions(root: &VNode) -> (hooks: Hooks)
    ensures
        match root@ {
            NodeModel::Element { attrs, .. } => crate::vdom::name_view(hooks.onupdate) == hook_call(
                attrs,
                "onupdate"@,
            ) && crate::vdom::name_view(hooks.onload) == hook_call(attrs, "onload"@),
            NodeModel::Text { .. } => hooks.onupdate is None && hooks.onload is None,
        },
{
    match root {
        VNode::Element(el) => Hooks {
            onupdate: read_hook(&el.attrs, "onupdate"),
            onload: read_hook(&el.attrs, "onload"),
        },
        VNode::Text(_) => Hooks { onupdate: None, onload: None },
    }
}

} // verus!
