use oeuvre::dataset::{Dataset, FieldType};
use oeuvre::dom::{Element, Node};
use oeuvre::names::NameMap;
use oeuvre::page::{Page, PageError, RenderError};
use oeuvre::site_config::SiteConfig;
use oeuvre::snippet::Snippet;
use oeuvre::template::Template;

fn el(name: &str) -> Element {
    Element::new(name.to_string(), None)
}

fn with_attr(mut e: Element, k: &str, v: &str) -> Element {
    e.attrs.push((k.to_string(), v.to_string()));
    e
}

fn with_child(mut e: Element, c: Element) -> Element {
    e.append_node(Node::Elem(c));
    e
}

fn with_text(mut e: Element, t: &str) -> Element {
    e.append_node(Node::Text(t.to_string()));
    e
}

#[test]
fn first_template_with_a_name_wins() {
    // Two roots declare the template name "t": only the first is kept.
    let one = with_child(with_attr(el("html"), "oeuvre-name", "t"), el("one"));
    let two = with_child(with_attr(el("html"), "oeuvre-name", "t"), el("two"));
    let templates = Template::load_many(&vec![one, two]);
    let kept = templates.get("t").expect("the first template must be kept");
    assert_eq!(kept.element().children.len(), 1);
    match &kept.element().children[0] {
        Node::Elem(c) => assert_eq!(c.name, "one"),
        Node::Text(_) => panic!("expected an element child"),
    }
}

#[test]
fn template_without_name_is_skipped() {
    let unnamed = with_child(el("html"), el("one"));
    let named = with_attr(el("html"), "oeuvre-name", "ok");
    let templates = Template::load_many(&vec![unnamed, named]);
    assert!(templates.get("ok").is_some());
    assert!(templates.get("").is_none());
}

#[test]
fn first_snippet_with_a_name_wins() {
    let one = with_text(with_attr(el("div"), "oeuvre-name", "s"), "first");
    let two = with_text(with_attr(el("div"), "oeuvre-name", "s"), "second");
    let snippets = Snippet::load_many(&vec![one, two]);
    let kept = snippets.get("s").expect("the first snippet must be kept");
    match &kept.element.children[0] {
        Node::Text(t) => assert_eq!(t, "first"),
        Node::Elem(_) => panic!("expected text"),
    }
}

#[test]
fn a_template_and_a_snippet_may_share_a_name() {
    let t = Template::load_many(&vec![with_attr(el("html"), "oeuvre-name", "n")]);
    let s = Snippet::load_many(&vec![with_attr(el("div"), "oeuvre-name", "n")]);
    assert!(t.get("n").is_some());
    assert!(s.get("n").is_some());
}

#[test]
fn page_without_template_attribute_is_rejected() {
    let root = el("html");
    let r = Page::new(&root, "pages/a.xml");
    assert!(matches!(r, Err(PageError::MissingTemplate)));
}

#[test]
fn page_output_path_defaults_to_its_source_path() {
    let root = with_attr(el("html"), "oeuvre-template", "t");
    let page = Page::new(&root, "pages/a.xml").unwrap();
    assert_eq!(page.path(), "pages/a.xml");
    assert_eq!(page.template(), "t");
}

#[test]
fn page_path_override_resolves_relative_to_the_source_directory() {
    let root = with_attr(
        with_attr(el("html"), "oeuvre-template", "t"),
        "oeuvre-path",
        "b.html",
    );
    let page = Page::new(&root, "pages/a.xml").unwrap();
    assert_eq!(page.path(), "pages/b.html");
}

#[test]
fn page_path_override_with_leading_separator_is_root_relative() {
    let root = with_attr(
        with_attr(el("html"), "oeuvre-template", "t"),
        "oeuvre-path",
        "/c/d.html",
    );
    let page = Page::new(&root, "pages/a.xml").unwrap();
    assert_eq!(page.path(), "c/d.html");
}

#[test]
fn page_path_override_without_source_directory() {
    let root = with_attr(
        with_attr(el("html"), "oeuvre-template", "t"),
        "oeuvre-path",
        "b.html",
    );
    let page = Page::new(&root, "a.xml").unwrap();
    assert_eq!(page.path(), "b.html");
}

#[test]
fn comma_separated_slot_names_each_bind_a_copy() {
    // One child fills both "a" and "b", names trimmed.
    let child = with_text(with_attr(el("p"), "oeuvre-slot", " a , b "), "hi");
    let root = with_child(with_attr(el("html"), "oeuvre-template", "t"), child);
    let page = Page::new(&root, "p.xml").unwrap();
    let template_root = with_child(
        with_child(
            with_attr(el("div"), "oeuvre-name", "t"),
            with_attr(el("oeuvre-slot"), "oeuvre-name", "a"),
        ),
        with_attr(el("oeuvre-slot"), "oeuvre-name", "b"),
    );
    let templates = Template::load_many(&vec![template_root]);
    let out = page.render(&templates, &NameMap::new()).unwrap();
    assert_eq!(out.children.len(), 2);
    for node in &out.children {
        match node {
            Node::Elem(c) => {
                assert_eq!(c.name, "p");
                assert!(c.attrs.is_empty());
            },
            Node::Text(_) => panic!("expected elements"),
        }
    }
}

#[test]
fn later_child_declaring_the_same_slot_wins() {
    let first = with_text(with_attr(el("p"), "oeuvre-slot", "x"), "first");
    let second = with_text(with_attr(el("q"), "oeuvre-slot", "x"), "second");
    let root = with_child(
        with_child(with_attr(el("html"), "oeuvre-template", "t"), first),
        second,
    );
    let page = Page::new(&root, "p.xml").unwrap();
    let template_root = with_child(
        with_attr(el("div"), "oeuvre-name", "t"),
        with_attr(el("oeuvre-slot"), "oeuvre-name", "x"),
    );
    let templates = Template::load_many(&vec![template_root]);
    let out = page.render(&templates, &NameMap::new()).unwrap();
    assert_eq!(out.children.len(), 1);
    match &out.children[0] {
        Node::Elem(c) => assert_eq!(c.name, "q"),
        Node::Text(_) => panic!("expected an element"),
    }
}

#[test]
fn page_render_fails_exactly_when_the_template_is_missing() {
    let root = with_attr(el("html"), "oeuvre-template", "absent");
    let page = Page::new(&root, "p.xml").unwrap();
    let templates: NameMap<Template> = NameMap::new();
    match page.render(&templates, &NameMap::new()) {
        Err(RenderError::TemplateNotFound(n)) => assert_eq!(n, "absent"),
        Ok(_) => panic!("rendering must fail without the template"),
    }
}

#[test]
fn page_load_many_keys_pages_by_output_path_and_skips_bad_sources() {
    let good = with_attr(el("html"), "oeuvre-template", "t");
    let bad = el("html");
    let pages = Page::load_many(&vec![
        ("pages/a.xml".to_string(), good),
        ("pages/bad.xml".to_string(), bad),
    ]);
    assert!(pages.get("pages/a.xml").is_some());
    assert!(pages.get("pages/bad.xml").is_none());
}

#[test]
fn dataset_fields_are_parsed_with_first_wins_names() {
    let f1 = with_attr(
        with_attr(with_attr(el("field"), "oeuvre-name", "f1"), "oeuvre-required", "true"),
        "oeuvre-type",
        "string",
    );
    let f2 = with_attr(with_attr(el("field"), "oeuvre-name", "f2"), "oeuvre-type", "fragment");
    let f1_again = with_attr(with_attr(el("field"), "oeuvre-name", "f1"), "oeuvre-type", "fragment");
    let bad_type = with_attr(with_attr(el("field"), "oeuvre-name", "f3"), "oeuvre-type", "number");
    let bad_required = with_attr(
        with_attr(with_attr(el("field"), "oeuvre-name", "f4"), "oeuvre-required", "maybe"),
        "oeuvre-type",
        "string",
    );
    let nameless = with_attr(el("field"), "oeuvre-type", "string");
    let root = with_child(
        with_child(
            with_child(
                with_child(
                    with_child(
                        with_child(with_attr(el("data"), "oeuvre-name", "d"), f1),
                        f2,
                    ),
                    f1_again,
                ),
                bad_type,
            ),
            bad_required,
        ),
        nameless,
    );
    let datasets = Dataset::load_many(&vec![root]);
    let d = datasets.get("d").expect("the dataset must load");
    assert_eq!(d.name, "d");
    let f1 = d.fields.get("f1").expect("f1 must be kept");
    assert!(f1.required);
    assert!(matches!(f1.field_type, FieldType::String));
    assert!(f1.default.is_none());
    let f2 = d.fields.get("f2").expect("f2 must be kept");
    assert!(!f2.required);
    assert!(matches!(f2.field_type, FieldType::Fragment));
    assert!(d.fields.get("f3").is_none());
    assert!(d.fields.get("f4").is_none());
}

#[test]
fn dataset_names_are_unique_first_wins() {
    let one = with_attr(el("data"), "oeuvre-name", "d");
    let two = with_child(
        with_attr(el("data"), "oeuvre-name", "d"),
        with_attr(with_attr(el("field"), "oeuvre-name", "x"), "oeuvre-type", "string"),
    );
    let datasets = Dataset::load_many(&vec![one, two]);
    let d = datasets.get("d").unwrap();
    assert!(d.fields.get("x").is_none());
}

#[test]
fn loading_data_rows_changes_nothing() {
    let datasets = Dataset::load_many(&vec![with_attr(el("data"), "oeuvre-name", "d")]);
    Dataset::load_rows(&vec!["data/d/row.xml".to_string()], &datasets);
    assert!(datasets.get("d").is_some());
}

#[test]
fn site_config_defaults() {
    assert_eq!(SiteConfig::default_dir(), "./");
    assert_eq!(SiteConfig::default_output_dir(), "output/");
    assert!(SiteConfig::default_exclude().is_empty());
    assert_eq!(SiteConfig::default_templates(), vec!["templates/**/*.xml".to_string()]);
    assert_eq!(SiteConfig::default_snippets(), vec!["snippets/**/*.xml".to_string()]);
    assert_eq!(SiteConfig::default_datasets(), vec!["data/*.xml".to_string()]);
    assert_eq!(SiteConfig::default_datarows(), vec!["data/*/**/*.xml".to_string()]);
    assert_eq!(SiteConfig::default_assets(), vec!["assets/**".to_string()]);
    assert_eq!(SiteConfig::default_pages(), vec!["**/*.xml".to_string()]);
}
