//! The composition engine: the recursive rewrite that merges a page's slot
//! values and a library of named snippets into a template's element tree.
//!
//! No condition here is fatal: a missing marker attribute or an unresolved
//! reference contributes no output for that node, and rendering continues
//! with its siblings. Resolution of slot and snippet references is bounded
//! by a fixed depth ([`RENDER_DEPTH_LIMIT`]), so that a snippet that
//! transitively includes itself cannot recurse without bound; a reference
//! nested deeper than the bound contributes no output.

use vstd::prelude::*;
use crate::dom::{Element, ElemModel, Node, NodeModel, lemma_nodes_model, nodes_model};
use crate::names::NameMap;
use crate::reserved::{
    fragment_tag, include_tag, is_reserved, name_attr, name_is_reserved, slot_tag, snippet_attr,
};
use crate::snippet::{Snippet, SnippetModel};
use crate::strutil::str_eq;

verus! {

/// The bound on the depth of slot and snippet resolution.
pub const RENDER_DEPTH_LIMIT: u64 = 64;

/// The elements of a snippet library, by name.
pub open spec fn snippet_elements(m: Map<Seq<char>, SnippetModel>) -> Map<Seq<char>, ElemModel> {
    m.map_values(|s: SnippetModel| s.element)
}

/// The attributes that rendering copies to the output: every attribute whose
/// name does not begin with the reserved prefix, in order.
pub open spec fn spec_filter_attrs(attrs: Seq<(Seq<char>, Seq<char>)>) -> Seq<
    (Seq<char>, Seq<char>),
>
    decreases attrs.len(),
{
    if attrs.len() == 0 {
        Seq::empty()
    } else {
        let rest = spec_filter_attrs(attrs.drop_last());
        if is_reserved(attrs.last().0) {
            rest
        } else {
            rest.push(attrs.last())
        }
    }
}

/// The rendering of one element: its name and namespace, its non-reserved
/// attributes, and the rendering of its children in order.
pub open spec fn spec_render(
    e: ElemModel,
    slots: Map<Seq<char>, ElemModel>,
    snips: Map<Seq<char>, ElemModel>,
    depth: nat,
) -> ElemModel
    decreases depth, e,
{
    ElemModel {
        name: e.name,
        ns: e.ns,
        attrs: spec_filter_attrs(e.attrs),
        children: spec_render_nodes(e.children, slots, snips, depth),
    }
}

/// The rendering of a sequence of children, in document order.
pub open spec fn spec_render_nodes(
    nodes: Seq<NodeModel>,
    slots: Map<Seq<char>, ElemModel>,
    snips: Map<Seq<char>, ElemModel>,
    depth: nat,
) -> Seq<NodeModel>
    decreases depth, nodes,
{
    if nodes.len() == 0 {
        Seq::empty()
    } else {
        spec_render_nodes(nodes.drop_last(), slots, snips, depth) + spec_render_node(
            nodes.last(),
            slots,
            snips,
            depth,
        )
    }
}

/// The nodes that one child contributes to its parent's output.
///
/// Text content passes through unchanged. An `oeuvre-include` marker is
/// replaced by the unwrapped rendering of the named snippet's children, or
/// of its own children when the name is unknown, or by nothing when the
/// naming attribute is missing. An `oeuvre-slot` marker is replaced by the
/// rendering of the matching slot value (unwrapped when that value is an
/// `oeuvre-fragment` wrapper), or by the unwrapped rendering of its own
/// children when no slot value matches, or by nothing when the naming
/// attribute is missing. Any other reserved-prefixed element contributes
/// nothing, and an ordinary element is rendered recursively.
pub open spec fn spec_render_node(
    node: NodeModel,
    slots: Map<Seq<char>, ElemModel>,
    snips: Map<Seq<char>, ElemModel>,
    depth: nat,
) -> Seq<NodeModel>
    decreases depth, node,
{
    match node {
        NodeModel::Text(t) => seq![NodeModel::Text(t)],
        NodeModel::Elem(c) => {
            if c.name == include_tag() {
                match c.attr(snippet_attr()) {
                    None => Seq::empty(),
                    Some(sn) => if snips.contains_key(sn) {
                        if depth > 0 {
                            spec_render_nodes(snips[sn].children, slots, snips, (depth - 1) as nat)
                        } else {
                            Seq::empty()
                        }
                    } else {
                        spec_render_nodes(c.children, slots, snips, depth)
                    },
                }
            } else if c.name == slot_tag() {
                match c.attr(name_attr()) {
                    None => Seq::empty(),
                    Some(sname) => if slots.contains_key(sname) {
                        if slots[sname].name == fragment_tag() {
                            if depth > 0 {
                                spec_render_nodes(
                                    slots[sname].children,
                                    slots,
                                    snips,
                                    (depth - 1) as nat,
                                )
                            } else {
                                Seq::empty()
                            }
                        } else {
                            if depth > 0 {
                                seq![
                                    NodeModel::Elem(
                                        spec_render(slots[sname], slots, snips, (depth - 1) as nat),
                                    ),
                                ]
                            } else {
                                Seq::empty()
                            }
                        }
                    } else {
                        spec_render_nodes(c.children, slots, snips, depth)
                    },
                }
            } else if is_reserved(c.name) {
                Seq::empty()
            } else {
                seq![NodeModel::Elem(spec_render(c, slots, snips, depth))]
            }
        },
    }
}

/// Injects slot values and snippet content into a template, performing
/// template expansion on all child elements.
pub fn render_template(
    template_element: &Element,
    slot_values: &NameMap<Element>,
    snippets: &NameMap<Snippet>,
) -> (result: Element)
    ensures
        result@ == spec_render(
            template_element@,
            slot_values@,
            snippet_elements(snippets@),
            RENDER_DEPTH_LIMIT as nat,
        ),
{
    render_element(template_element, slot_values, snippets, RENDER_DEPTH_LIMIT)
}

/// Renders one element at the given remaining resolution depth.
fn render_element(
    element: &Element,
    slot_values: &NameMap<Element>,
    snippets: &NameMap<Snippet>,
    depth: u64,
) -> (result: Element)
    ensures
        result@ == spec_render(
            element@,
            slot_values@,
            snippet_elements(snippets@),
            depth as nat,
        ),
    decreases depth, element@, 0int,
{
    let ghost cs = element@.children;
    let ghost sm = snippet_elements(snippets@);
    let mut result = initialize_element(element);
    proof {
        lemma_nodes_model(element.children@);
        assert(cs == nodes_model(element.children@));
        assert(cs.take(0) =~= Seq::<NodeModel>::empty());
        assert(cs.len() == element.children@.len());
        assert(forall|k: int| 0 <= k < cs.len() ==> cs[k] == element.children@[k]@);
    }
    let mut i: usize = 0;
    while i < element.children.len()
        invariant
            0 <= i <= element.children.len(),
            cs == element@.children,
            sm == snippet_elements(snippets@),
            cs.len() == element.children@.len(),
            forall|k: int| 0 <= k < cs.len() ==> cs[k] == element.children@[k]@,
            result@.name == element@.name,
            result@.ns == element@.ns,
            result@.attrs == spec_filter_attrs(element@.attrs),
            result@.children == spec_render_nodes(cs.take(i as int), slot_values@, sm, depth as nat),
        decreases element.children.len() - i,
    {
        proof {
            assert(decreases_to!(element@ => element@.children));
            assert(decreases_to!(element@.children => element@.children[i as int]));
        }
        render_node_into(&element.children[i], &mut result, slot_values, snippets, depth);
        proof {
            assert(cs.take(i as int + 1).drop_last() =~= cs.take(i as int));
            assert(cs.take(i as int + 1).last() == cs[i as int]);
        }
        i = i + 1;
    }
    proof {
        assert(cs.take(element.children@.len() as int) =~= cs);
        assert(result@ =~= spec_render(element@, slot_values@, sm, depth as nat));
    }
    result
}

/// Renders one child node and appends its contribution to `target`.
fn render_node_into(
    node: &Node,
    target: &mut Element,
    slot_values: &NameMap<Element>,
    snippets: &NameMap<Snippet>,
    depth: u64,
) -> (nothing: ())
    ensures
        final(target)@ == (ElemModel {
            children: old(target)@.children + spec_render_node(
                node@,
                slot_values@,
                snippet_elements(snippets@),
                depth as nat,
            ),
            ..old(target)@
        }),
    decreases depth, node@, 3int,
{
    match node {
        Node::Text(t) => {
            target.append_node(Node::Text(t.clone()));
            proof {
                assert(final(target)@.children =~= old(target)@.children + spec_render_node(
                    node@,
                    slot_values@,
                    snippet_elements(snippets@),
                    depth as nat,
                ));
                assert(final(target)@ =~= (ElemModel {
                    children: old(target)@.children + spec_render_node(
                        node@,
                        slot_values@,
                        snippet_elements(snippets@),
                        depth as nat,
                    ),
                    ..old(target)@
                }));
            }
        },
        Node::Elem(c) => {
            proof {
                assert(node@ == NodeModel::Elem(c@));
                assert(decreases_to!(node@ => c@));
            }
            if str_eq(c.name.as_str(), "oeuvre-include") {
                render_include(c, target, slot_values, snippets, depth);
            } else if str_eq(c.name.as_str(), "oeuvre-slot") {
                render_slot(c, target, slot_values, snippets, depth);
            } else if name_is_reserved(c.name.as_str()) {
                // An unknown reserved-prefixed marker contributes no output.
                proof {
                    assert(spec_render_node(
                        node@,
                        slot_values@,
                        snippet_elements(snippets@),
                        depth as nat,
                    ) =~= Seq::<NodeModel>::empty());
                    assert(final(target)@ =~= (ElemModel {
                        children: old(target)@.children + Seq::<NodeModel>::empty(),
                        ..old(target)@
                    }));
                }
            } else {
                append_element(c, target, slot_values, snippets, depth);
            }
        },
    }
}

/// An `oeuvre-include` element renders the snippet named in its
/// `oeuvre-snippet` attribute, or its own contents if no such snippet
/// exists. When the attribute is missing, the element renders no content.
fn render_include(
    element: &Element,
    target: &mut Element,
    slot_values: &NameMap<Element>,
    snippets: &NameMap<Snippet>,
    depth: u64,
) -> (nothing: ())
    requires
        element@.name == include_tag(),
    ensures
        final(target)@ == (ElemModel {
            children: old(target)@.children + spec_render_node(
                NodeModel::Elem(element@),
                slot_values@,
                snippet_elements(snippets@),
                depth as nat,
            ),
            ..old(target)@
        }),
    decreases depth, element@, 2int,
{
    let ghost sm = snippet_elements(snippets@);
    match element.attr("oeuvre-snippet") {
        Some(snippet_name) => {
            match snippets.get(snippet_name.as_str()) {
                Some(snippet) => {
                    proof {
                        assert(sm.contains_key(snippet_name@));
                        assert(sm[snippet_name@] == snippet@.element);
                    }
                    if depth > 0 {
                        unwrap_fragment(&snippet.element, target, slot_values, snippets, depth - 1);
                    } else {
                        proof {
                            assert(final(target)@ =~= (ElemModel {
                                children: old(target)@.children + Seq::<NodeModel>::empty(),
                                ..old(target)@
                            }));
                        }
                    }
                },
                None => {
                    proof {
                        assert(!sm.contains_key(snippet_name@));
                    }
                    unwrap_fragment(element, target, slot_values, snippets, depth);
                },
            }
        },
        None => {
            proof {
                assert(final(target)@ =~= (ElemModel {
                    children: old(target)@.children + Seq::<NodeModel>::empty(),
                    ..old(target)@
                }));
            }
        },
    }
}

/// An `oeuvre-slot` element renders the element or fragment provided by the
/// page being rendered, or its own contents if no such value exists. When
/// the `oeuvre-name` attribute is missing, the element renders no content.
fn render_slot(
    element: &Element,
    target: &mut Element,
    slot_values: &NameMap<Element>,
    snippets: &NameMap<Snippet>,
    depth: u64,
) -> (nothing: ())
    requires
        element@.name == slot_tag(),
        element@.name != include_tag(),
    ensures
        final(target)@ == (ElemModel {
            children: old(target)@.children + spec_render_node(
                NodeModel::Elem(element@),
                slot_values@,
                snippet_elements(snippets@),
                depth as nat,
            ),
            ..old(target)@
        }),
    decreases depth, element@, 2int,
{
    match element.attr("oeuvre-name") {
        Some(slot_name) => {
            match slot_values.get(slot_name.as_str()) {
                Some(slot_value) => {
                    if str_eq(slot_value.name.as_str(), "oeuvre-fragment") {
                        if depth > 0 {
                            unwrap_fragment(slot_value, target, slot_values, snippets, depth - 1);
                        } else {
                            proof {
                                assert(final(target)@ =~= (ElemModel {
                                    children: old(target)@.children + Seq::<NodeModel>::empty(),
                                    ..old(target)@
                                }));
                            }
                        }
                    } else {
                        if depth > 0 {
                            append_element(slot_value, target, slot_values, snippets, depth - 1);
                        } else {
                            proof {
                                assert(final(target)@ =~= (ElemModel {
                                    children: old(target)@.children + Seq::<NodeModel>::empty(),
                                    ..old(target)@
                                }));
                            }
                        }
                    }
                },
                None => {
                    unwrap_fragment(element, target, slot_values, snippets, depth);
                },
            }
        },
        None => {
            proof {
                assert(final(target)@ =~= (ElemModel {
                    children: old(target)@.children + Seq::<NodeModel>::empty(),
                    ..old(target)@
                }));
            }
        },
    }
}

/// Creates a new element copying the name, namespace and attributes of the
/// input element — though reserved attributes are omitted.
fn initialize_element(template_element: &Element) -> (result: Element)
    ensures
        result@ == (ElemModel {
            name: template_element@.name,
            ns: template_element@.ns,
            attrs: spec_filter_attrs(template_element@.attrs),
            children: Seq::<NodeModel>::empty(),
        }),
{
    let ghost am = template_element@.attrs;
    let name = template_element.name.clone();
    let ns = match &template_element.ns {
        Some(n) => Some(n.clone()),
        None => None,
    };
    let mut attrs: Vec<(String, String)> = Vec::new();
    proof {
        assert(am.take(0) =~= Seq::<(Seq<char>, Seq<char>)>::empty());
        assert(attrs@.map_values(|p: (String, String)| (p.0@, p.1@)) =~= spec_filter_attrs(
            am.take(0),
        ));
    }
    let mut i: usize = 0;
    while i < template_element.attrs.len()
        invariant
            0 <= i <= template_element.attrs.len(),
            am == template_element@.attrs,
            am.len() == template_element.attrs@.len(),
            forall|k: int|
                0 <= k < am.len() ==> am[k] == (
                    template_element.attrs@[k].0@,
                    template_element.attrs@[k].1@,
                ),
            attrs@.map_values(|p: (String, String)| (p.0@, p.1@)) == spec_filter_attrs(
                am.take(i as int),
            ),
        decreases template_element.attrs.len() - i,
    {
        proof {
            assert(am.take(i as int + 1).drop_last() =~= am.take(i as int));
            assert(am.take(i as int + 1).last() == am[i as int]);
        }
        if !name_is_reserved(template_element.attrs[i].0.as_str()) {
            attrs.push(
                (template_element.attrs[i].0.clone(), template_element.attrs[i].1.clone()),
            );
            proof {
                assert(attrs@.map_values(|p: (String, String)| (p.0@, p.1@)) =~= spec_filter_attrs(
                    am.take(i as int + 1),
                ));
            }
        } else {
            proof {
                assert(attrs@.map_values(|p: (String, String)| (p.0@, p.1@)) =~= spec_filter_attrs(
                    am.take(i as int + 1),
                ));
            }
        }
        i = i + 1;
    }
    proof {
        assert(am.take(template_element.attrs@.len() as int) =~= am);
    }
    let result = Element { name, ns, attrs, children: Vec::new() };
    proof {
        assert(result@.children =~= Seq::<NodeModel>::empty());
        assert(result@ =~= (ElemModel {
            name: template_element@.name,
            ns: template_element@.ns,
            attrs: spec_filter_attrs(template_element@.attrs),
            children: Seq::<NodeModel>::empty(),
        }));
    }
    result
}

/// Performs template expansion on the provided element and appends the
/// single rendered result to `target`.
fn append_element(
    element: &Element,
    target: &mut Element,
    slot_values: &NameMap<Element>,
    snippets: &NameMap<Snippet>,
    depth: u64,
) -> (nothing: ())
    ensures
        final(target)@ == (ElemModel {
            children: old(target)@.children + seq![
                NodeModel::Elem(
                    spec_render(
                        element@,
                        slot_values@,
                        snippet_elements(snippets@),
                        depth as nat,
                    ),
                ),
            ],
            ..old(target)@
        }),
    decreases depth, element@, 1int,
{
    let rendered = render_element(element, slot_values, snippets, depth);
    target.append_node(Node::Elem(rendered));
    proof {
        assert(final(target)@.children =~= old(target)@.children + seq![
            NodeModel::Elem(
                spec_render(element@, slot_values@, snippet_elements(snippets@), depth as nat),
            ),
        ]);
        assert(final(target)@ =~= (ElemModel {
            children: old(target)@.children + seq![
                NodeModel::Elem(
                    spec_render(
                        element@,
                        slot_values@,
                        snippet_elements(snippets@),
                        depth as nat,
                    ),
                ),
            ],
            ..old(target)@
        }));
    }
}

/// Performs template expansion on the children of the provided element and
/// appends the results to `target`, discarding the wrapper itself. This is
/// the mechanism behind `oeuvre-fragment` slot values and behind the
/// fallback content of unmatched slots and unmatched snippet references.
fn unwrap_fragment(
    fragment: &Element,
    target: &mut Element,
    slot_values: &NameMap<Element>,
    snippets: &NameMap<Snippet>,
    depth: u64,
) -> (nothing: ())
    ensures
        final(target)@ == (ElemModel {
            children: old(target)@.children + spec_render_nodes(
                fragment@.children,
                slot_values@,
                snippet_elements(snippets@),
                depth as nat,
            ),
            ..old(target)@
        }),
    decreases depth, fragment@, 1int,
{
    let ghost cs = fragment@.children;
    let ghost sm = snippet_elements(snippets@);
    proof {
        lemma_nodes_model(fragment.children@);
        assert(cs == nodes_model(fragment.children@));
        assert(cs.take(0) =~= Seq::<NodeModel>::empty());
        assert(cs.len() == fragment.children@.len());
        assert(forall|k: int| 0 <= k < cs.len() ==> cs[k] == fragment.children@[k]@);
        assert(old(target)@.children + spec_render_nodes(
            cs.take(0),
            slot_values@,
            sm,
            depth as nat,
        ) =~= old(target)@.children);
    }
    let mut i: usize = 0;
    while i < fragment.children.len()
        invariant
            0 <= i <= fragment.children.len(),
            cs == fragment@.children,
            sm == snippet_elements(snippets@),
            cs.len() == fragment.children@.len(),
            forall|k: int| 0 <= k < cs.len() ==> cs[k] == fragment.children@[k]@,
            target@ == (ElemModel {
                children: old(target)@.children + spec_render_nodes(
                    cs.take(i as int),
                    slot_values@,
                    sm,
                    depth as nat,
                ),
                ..old(target)@
            }),
        decreases fragment.children.len() - i,
    {
        proof {
            assert(decreases_to!(fragment@ => fragment@.children));
            assert(decreases_to!(fragment@.children => fragment@.children[i as int]));
        }
        render_node_into(&fragment.children[i], target, slot_values, snippets, depth);
        proof {
            assert(cs.take(i as int + 1).drop_last() =~= cs.take(i as int));
            assert(cs.take(i as int + 1).last() == cs[i as int]);
            assert(target@.children =~= old(target)@.children + spec_render_nodes(
                cs.take(i as int + 1),
                slot_values@,
                sm,
                depth as nat,
            ));
            assert(target@ =~= (ElemModel {
                children: old(target)@.children + spec_render_nodes(
                    cs.take(i as int + 1),
                    slot_values@,
                    sm,
                    depth as nat,
                ),
                ..old(target)@
            }));
        }
        i = i + 1;
    }
    proof {
        assert(cs.take(fragment.children@.len() as int) =~= cs);
    }
}

/// Whether an element, recursively, carries no reserved-prefixed attribute.
pub open spec fn elem_no_reserved_attrs(e: ElemModel) -> bool
    decreases e,
{
    &&& forall|i: int| 0 <= i < e.attrs.len() ==> !is_reserved(#[trigger] e.attrs[i].0)
    &&& nodes_no_reserved_attrs(e.children)
}

/// Whether every element of a node sequence, recursively, carries no
/// reserved-prefixed attribute.
pub open spec fn nodes_no_reserved_attrs(nodes: Seq<NodeModel>) -> bool
    decreases nodes,
{
    if nodes.len() == 0 {
        true
    } else {
        nodes_no_reserved_attrs(nodes.drop_last()) && node_no_reserved_attrs(nodes.last())
    }
}

/// Whether a node, recursively, carries no reserved-prefixed attribute.
pub open spec fn node_no_reserved_attrs(node: NodeModel) -> bool
    decreases node,
{
    match node {
        NodeModel::Text(_) => true,
        NodeModel::Elem(e) => elem_no_reserved_attrs(e),
    }
}

/// The attributes that rendering copies never carry the reserved prefix.
proof fn lemma_filter_attrs_no_reserved(attrs: Seq<(Seq<char>, Seq<char>)>)
    ensures
        forall|i: int|
            0 <= i < spec_filter_attrs(attrs).len() ==> !is_reserved(
                #[trigger] spec_filter_attrs(attrs)[i].0,
            ),
    decreases attrs.len(),
{
    if attrs.len() > 0 {
        lemma_filter_attrs_no_reserved(attrs.drop_last());
        let rest = spec_filter_attrs(attrs.drop_last());
        let whole = spec_filter_attrs(attrs);
        assert forall|i: int| 0 <= i < whole.len() implies !is_reserved(whole[i].0) by {
            if is_reserved(attrs.last().0) {
                assert(whole == rest);
            } else {
                assert(whole == rest.push(attrs.last()));
                if i < rest.len() {
                    assert(whole[i] == rest[i]);
                } else {
                    assert(whole[i] == attrs.last());
                }
            }
        }
    }
}

/// An empty contribution carries no reserved attribute.
proof fn lemma_nodes_no_reserved_empty()
    ensures
        nodes_no_reserved_attrs(Seq::<NodeModel>::empty()),
{
}

/// A single admissible node is an admissible contribution.
proof fn lemma_nodes_no_reserved_singleton(node: NodeModel)
    requires
        node_no_reserved_attrs(node),
    ensures
        nodes_no_reserved_attrs(seq![node]),
{
    let s = seq![node];
    assert(s.drop_last() =~= Seq::<NodeModel>::empty());
    assert(nodes_no_reserved_attrs(s.drop_last()));
    assert(s.last() == node);
}

/// Attribute filtering: for all input elements, no attribute whose name
/// begins with the reserved prefix appears anywhere in rendered output.
pub proof fn lemma_render_attr_filtering(
    e: ElemModel,
    slots: Map<Seq<char>, ElemModel>,
    snips: Map<Seq<char>, ElemModel>,
    depth: nat,
)
    ensures
        elem_no_reserved_attrs(spec_render(e, slots, snips, depth)),
    decreases depth, e,
{
    lemma_filter_attrs_no_reserved(e.attrs);
    lemma_render_nodes_attr_filtering(e.children, slots, snips, depth);
}

/// Attribute filtering for the rendering of a sequence of children.
pub proof fn lemma_render_nodes_attr_filtering(
    nodes: Seq<NodeModel>,
    slots: Map<Seq<char>, ElemModel>,
    snips: Map<Seq<char>, ElemModel>,
    depth: nat,
)
    ensures
        nodes_no_reserved_attrs(spec_render_nodes(nodes, slots, snips, depth)),
    decreases depth, nodes,
{
    if nodes.len() > 0 {
        lemma_render_nodes_attr_filtering(nodes.drop_last(), slots, snips, depth);
        lemma_render_node_attr_filtering(nodes.last(), slots, snips, depth);
        lemma_nodes_no_reserved_concat(
            spec_render_nodes(nodes.drop_last(), slots, snips, depth),
            spec_render_node(nodes.last(), slots, snips, depth),
        );
    }
}

/// Attribute filtering for the contribution of a single child node.
pub proof fn lemma_render_node_attr_filtering(
    node: NodeModel,
    slots: Map<Seq<char>, ElemModel>,
    snips: Map<Seq<char>, ElemModel>,
    depth: nat,
)
    ensures
        nodes_no_reserved_attrs(spec_render_node(node, slots, snips, depth)),
    decreases depth, node,
{
    let out = spec_render_node(node, slots, snips, depth);
    lemma_nodes_no_reserved_empty();
    match node {
        NodeModel::Text(t) => {
            lemma_nodes_no_reserved_singleton(NodeModel::Text(t));
        },
        NodeModel::Elem(c) => {
            if c.name == include_tag() {
                match c.attr(snippet_attr()) {
                    None => {},
                    Some(sn) => {
                        if snips.contains_key(sn) {
                            if depth > 0 {
                                lemma_render_nodes_attr_filtering(
                                    snips[sn].children,
                                    slots,
                                    snips,
                                    (depth - 1) as nat,
                                );
                            }
                        } else {
                            lemma_render_nodes_attr_filtering(c.children, slots, snips, depth);
                        }
                    },
                }
            } else if c.name == slot_tag() {
                match c.attr(name_attr()) {
                    None => {},
                    Some(sname) => {
                        if slots.contains_key(sname) {
                            if slots[sname].name == fragment_tag() {
                                if depth > 0 {
                                    lemma_render_nodes_attr_filtering(
                                        slots[sname].children,
                                        slots,
                                        snips,
                                        (depth - 1) as nat,
                                    );
                                }
                            } else {
                                if depth > 0 {
                                    lemma_render_attr_filtering(
                                        slots[sname],
                                        slots,
                                        snips,
                                        (depth - 1) as nat,
                                    );
                                    lemma_nodes_no_reserved_singleton(
                                        NodeModel::Elem(
                                            spec_render(
                                                slots[sname],
                                                slots,
                                                snips,
                                                (depth - 1) as nat,
                                            ),
                                        ),
                                    );
                                }
                            }
                        } else {
                            lemma_render_nodes_attr_filtering(c.children, slots, snips, depth);
                        }
                    },
                }
            } else if is_reserved(c.name) {
            } else {
                lemma_render_attr_filtering(c, slots, snips, depth);
                lemma_nodes_no_reserved_singleton(
                    NodeModel::Elem(spec_render(c, slots, snips, depth)),
                );
            }
        },
    }
}

/// `nodes_no_reserved_attrs` distributes over concatenation.
proof fn lemma_nodes_no_reserved_concat(a: Seq<NodeModel>, b: Seq<NodeModel>)
    requires
        nodes_no_reserved_attrs(a),
        nodes_no_reserved_attrs(b),
    ensures
        nodes_no_reserved_attrs(a + b),
    decreases b.len(),
{
    if b.len() == 0 {
        assert(a + b =~= a);
    } else {
        lemma_nodes_no_reserved_concat(a, b.drop_last());
        assert((a + b).drop_last() =~= a + b.drop_last());
        assert((a + b).last() == b.last());
    }
}

/// Idempotence of unwrap: rendering a sequence of nodes as a spliced
/// fragment produces exactly the same output as rendering each node
/// independently and concatenating the results.
pub proof fn lemma_unwrap_concat(
    nodes: Seq<NodeModel>,
    slots: Map<Seq<char>, ElemModel>,
    snips: Map<Seq<char>, ElemModel>,
    depth: nat,
)
    ensures
        spec_render_nodes(nodes, slots, snips, depth) == Seq::new(
            nodes.len(),
            |i: int| spec_render_node(nodes[i], slots, snips, depth),
        ).flatten(),
    decreases nodes.len(),
{
    let pieces = Seq::new(nodes.len(), |i: int| spec_render_node(nodes[i], slots, snips, depth));
    pieces.lemma_flatten_and_flatten_alt_are_equivalent();
    if nodes.len() == 0 {
        assert(spec_render_nodes(nodes, slots, snips, depth) =~= pieces.flatten_alt());
    } else {
        lemma_unwrap_concat(nodes.drop_last(), slots, snips, depth);
        let rest = Seq::new(
            nodes.drop_last().len(),
            |i: int| spec_render_node(nodes.drop_last()[i], slots, snips, depth),
        );
        rest.lemma_flatten_and_flatten_alt_are_equivalent();
        assert(pieces.drop_last() =~= rest);
        assert(pieces.last() == spec_render_node(nodes.last(), slots, snips, depth));
        assert(spec_render_nodes(nodes, slots, snips, depth) =~= pieces.flatten_alt());
    }
}

/// Idempotence of unwrap at a slot site: the output contributed by a slot
/// marker whose matching value is a fragment wrapper equals the
/// concatenation of the independent renderings of that wrapper's children.
pub proof fn lemma_fragment_slot_unwrap(
    marker: ElemModel,
    slots: Map<Seq<char>, ElemModel>,
    snips: Map<Seq<char>, ElemModel>,
    depth: nat,
)
    requires
        marker.name == slot_tag(),
        marker.attr(name_attr()) is Some,
        slots.contains_key(marker.attr(name_attr()).unwrap()),
        slots[marker.attr(name_attr()).unwrap()].name == fragment_tag(),
        depth > 0,
    ensures
        spec_render_node(NodeModel::Elem(marker), slots, snips, depth) == Seq::new(
            slots[marker.attr(name_attr()).unwrap()].children.len(),
            |i: int|
                spec_render_node(
                    slots[marker.attr(name_attr()).unwrap()].children[i],
                    slots,
                    snips,
                    (depth - 1) as nat,
                ),
        ).flatten(),
{
    crate::reserved::lemma_tags_distinct();
    assert(marker.name != include_tag());
    lemma_unwrap_concat(
        slots[marker.attr(name_attr()).unwrap()].children,
        slots,
        snips,
        (depth - 1) as nat,
    );
}

/// Fallback law: the output contributed by a slot marker with no matching
/// slot value equals the rendering of that marker's own children directly,
/// unwrapped.
pub proof fn lemma_slot_fallback(
    marker: ElemModel,
    slots: Map<Seq<char>, ElemModel>,
    snips: Map<Seq<char>, ElemModel>,
    depth: nat,
)
    requires
        marker.name == slot_tag(),
        marker.attr(name_attr()) is Some,
        !slots.contains_key(marker.attr(name_attr()).unwrap()),
    ensures
        spec_render_node(NodeModel::Elem(marker), slots, snips, depth) == spec_render_nodes(
            marker.children,
            slots,
            snips,
            depth,
        ),
{
    crate::reserved::lemma_tags_distinct();
    assert(marker.name != include_tag());
}

} // verus!
