use oeuvre::dom::{Element, Node};
use oeuvre::names::NameMap;
use oeuvre::render::render_template;
use oeuvre::snippet::Snippet;

fn el(name: &str) -> Element {
    Element::new(name.to_string(), None)
}

fn with_attr(mut e: Element, k: &str, v: &str) -> Element {
    e.attrs.push((k.to_string(), v.to_string()));
    e
}

fn with_child(mut e: Element, c: Element) -> Element {
    e.append_node(Node::Elem(c));
    e
}

fn with_text(mut e: Element, t: &str) -> Element {
    e.append_node(Node::Text(t.to_string()));
    e
}

fn node_eq(a: &Node, b: &Node) -> bool {
    match (a, b) {
        (Node::Text(x), Node::Text(y)) => x == y,
        (Node::Elem(x), Node::Elem(y)) => elem_eq(x, y),
        _ => false,
    }
}

fn elem_eq(a: &Element, b: &Element) -> bool {
    a.name == b.name && a.ns == b.ns && a.attrs == b.attrs && a.children.len()
        == b.children.len() && a.children.iter().zip(b.children.iter()).all(|(x, y)| node_eq(x, y))
}

fn no_reserved_attrs(e: &Element) -> bool {
    e.attrs.iter().all(|a| !a.0.starts_with("oeuvre-")) && e.children.iter().all(|n| match n {
        Node::Text(_) => true,
        Node::Elem(c) => no_reserved_attrs(c),
    })
}

fn no_slots() -> NameMap<Element> {
    NameMap::new()
}

fn no_snippets() -> NameMap<Snippet> {
    NameMap::new()
}

#[test]
fn slot_without_matching_value_renders_fallback() {
    // Template body <div><oeuvre-slot oeuvre-name="x">fallback</oeuvre-slot></div>,
    // no slot value for "x": the output is <div>fallback</div>.
    let slot = with_text(with_attr(el("oeuvre-slot"), "oeuvre-name", "x"), "fallback");
    let template = with_child(el("div"), slot);
    let out = render_template(&template, &no_slots(), &no_snippets());
    let expected = with_text(el("div"), "fallback");
    assert!(elem_eq(&out, &expected));
}

#[test]
fn slot_with_matching_value_renders_the_value() {
    // Same template; the page supplies <p oeuvre-slot="x">hi</p>:
    // the output is <div><p>hi</p></div>.
    let slot = with_text(with_attr(el("oeuvre-slot"), "oeuvre-name", "x"), "fallback");
    let template = with_child(el("div"), slot);
    let mut slots = no_slots();
    slots.insert("x".to_string(), with_text(with_attr(el("p"), "oeuvre-slot", "x"), "hi"));
    let out = render_template(&template, &slots, &no_snippets());
    let expected = with_child(el("div"), with_text(el("p"), "hi"));
    assert!(elem_eq(&out, &expected));
}

#[test]
fn include_of_missing_snippet_renders_unwrapped_fallback() {
    // <oeuvre-include oeuvre-snippet="missing"><span>fb</span></oeuvre-include>
    // with no snippet named "missing": the output is <span>fb</span> with no
    // wrapper around it.
    let fallback = with_text(el("span"), "fb");
    let marker = with_child(with_attr(el("oeuvre-include"), "oeuvre-snippet", "missing"), fallback);
    let template = with_child(el("body"), marker);
    let out = render_template(&template, &no_slots(), &no_snippets());
    let expected = with_child(el("body"), with_text(el("span"), "fb"));
    assert!(elem_eq(&out, &expected));
}

#[test]
fn include_of_known_snippet_splices_its_children() {
    let marker = with_child(
        with_attr(el("oeuvre-include"), "oeuvre-snippet", "header"),
        with_text(el("span"), "fb"),
    );
    let template = with_child(el("body"), marker);
    let snippet_root = with_child(
        with_attr(el("oeuvre-snippet"), "oeuvre-name", "header"),
        with_text(el("h1"), "Title"),
    );
    let mut snippets = no_snippets();
    snippets.insert(
        "header".to_string(),
        Snippet { element: snippet_root, name: "header".to_string() },
    );
    let out = render_template(&template, &no_slots(), &snippets);
    // The snippet's root tag is discarded; only its content surfaces.
    let expected = with_child(el("body"), with_text(el("h1"), "Title"));
    assert!(elem_eq(&out, &expected));
}

#[test]
fn fragment_slot_value_is_unwrapped() {
    // A fragment-wrapped slot value contributes its children in place,
    // exactly as rendering each child independently and concatenating.
    let slot = with_attr(el("oeuvre-slot"), "oeuvre-name", "x");
    let template = with_child(el("div"), slot);
    let first = with_text(el("i"), "1");
    let second = with_text(el("b"), "2");
    let fragment = with_child(with_child(el("oeuvre-fragment"), first.duplicate()), second.duplicate());
    let mut slots = no_slots();
    slots.insert("x".to_string(), fragment);
    let out = render_template(&template, &slots, &no_snippets());
    let expected = with_child(with_child(el("div"), first.duplicate()), second.duplicate());
    assert!(elem_eq(&out, &expected));
    // Each fragment child, rendered independently, equals the piece that
    // was spliced in.
    let alone_first = render_template(&first, &no_slots(), &no_snippets());
    let alone_second = render_template(&second, &no_slots(), &no_snippets());
    assert!(node_eq(&out.children[0], &Node::Elem(alone_first)));
    assert!(node_eq(&out.children[1], &Node::Elem(alone_second)));
}

#[test]
fn reserved_attributes_never_reach_the_output() {
    let inner = with_attr(with_attr(el("em"), "oeuvre-zzz", "1"), "id", "k");
    let slot_value = with_attr(with_attr(el("p"), "oeuvre-slot", "x"), "class", "c");
    let template = with_child(
        with_attr(with_attr(el("div"), "class", "a"), "oeuvre-name", "t"),
        with_child(with_attr(el("oeuvre-slot"), "oeuvre-name", "x"), inner),
    );
    let mut slots = no_slots();
    slots.insert("x".to_string(), slot_value);
    let out = render_template(&template, &slots, &no_snippets());
    assert!(no_reserved_attrs(&out));
    assert_eq!(out.attrs, vec![("class".to_string(), "a".to_string())]);
}

#[test]
fn unknown_reserved_marker_contributes_nothing() {
    let template = with_child(
        with_text(el("div"), "keep"),
        with_text(el("oeuvre-bogus"), "dropped"),
    );
    let out = render_template(&template, &no_slots(), &no_snippets());
    let expected = with_text(el("div"), "keep");
    assert!(elem_eq(&out, &expected));
}

#[test]
fn slot_marker_without_name_contributes_nothing() {
    let template = with_child(el("div"), with_text(el("oeuvre-slot"), "dropped"));
    let out = render_template(&template, &no_slots(), &no_snippets());
    assert!(elem_eq(&out, &el("div")));
}

#[test]
fn include_marker_without_snippet_attribute_contributes_nothing() {
    let template = with_child(el("div"), with_text(el("oeuvre-include"), "dropped"));
    let out = render_template(&template, &no_slots(), &no_snippets());
    assert!(elem_eq(&out, &el("div")));
}

#[test]
fn text_and_ordinary_children_keep_their_order() {
    let template = with_text(
        with_child(with_text(el("div"), "one"), with_text(el("span"), "two")),
        "three",
    );
    let out = render_template(&template, &no_slots(), &no_snippets());
    assert!(elem_eq(&out, &template));
}

#[test]
fn name_and_namespace_are_copied() {
    let mut template = el("svg");
    template.ns = Some("http://www.w3.org/2000/svg".to_string());
    let out = render_template(&template, &no_slots(), &no_snippets());
    assert_eq!(out.name, "svg");
    assert_eq!(out.ns, Some("http://www.w3.org/2000/svg".to_string()));
}
