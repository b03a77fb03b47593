//! Pages: source documents specifying a target template and a set of named
//! slot values drawn from the page root's direct children.

use vstd::prelude::*;
use crate::dom::{Element, ElemModel, Node, NodeModel, lemma_nodes_model, nodes_model};
use crate::names::NameMap;
use crate::render::{render_template, snippet_elements, spec_render, RENDER_DEPTH_LIMIT};
use crate::reserved::{path_attr, slot_attr, template_attr};
use crate::snippet::Snippet;
use crate::strutil::{join_spec, parent_spec, split_commas, trim_spec};
use crate::template::Template;

verus! {

/// Why a page file was rejected as a whole.
#[derive(Debug)]
pub enum PageError {
    /// The root element has no `oeuvre-template` attribute.
    MissingTemplate,
}

/// Why a page could not be rendered.
#[derive(Debug)]
pub enum RenderError {
    /// The page requested a template that does not exist.
    TemplateNotFound(String),
}

/// A single page, as represented by its output path, target template and
/// associated slot values. Each page renders to a single document.
pub struct Page {
    path: String,
    template: String,
    slot_values: NameMap<Element>,
}

/// The mathematical model of a `Page`.
#[verifier::ext_equal]
pub struct PageModel {
    pub path: Seq<char>,
    pub template: Seq<char>,
    pub slots: Map<Seq<char>, ElemModel>,
}

impl View for Page {
    type V = PageModel;

    closed spec fn view(&self) -> PageModel {
        PageModel {
            path: self.path@,
            template: self.template@,
            slots: self.slot_values@,
        }
    }
}

/// The output path of a page: the `oeuvre-path` attribute when present — a
/// leading separator makes it root-relative, anything else resolves
/// relative to the source file's own directory — and the source file's own
/// path otherwise.
pub open spec fn page_output_path(path_attr_value: Option<Seq<char>>, input: Seq<char>) -> Seq<
    char,
> {
    match path_attr_value {
        None => input,
        Some(p) => if p.len() > 0 && p[0] == '/' {
            p.skip(1)
        } else {
            join_spec(parent_spec(input), p)
        },
    }
}

/// Binds every listed slot name, trimmed, to the same child element; a
/// later name in the list overrides an earlier binding of the same name.
pub open spec fn insert_slot_names(
    m: Map<Seq<char>, ElemModel>,
    names: Seq<Seq<char>>,
    c: ElemModel,
) -> Map<Seq<char>, ElemModel>
    decreases names.len(),
{
    if names.len() == 0 {
        m
    } else {
        insert_slot_names(m, names.drop_last(), c).insert(trim_spec(names.last()), c)
    }
}

/// The slot-value map drawn from a page root's direct children, in
/// document order: each child element carrying an `oeuvre-slot` attribute
/// is bound, as a whole, to every name in that attribute's comma-separated
/// list; when several children declare the same name, the last one in
/// document order wins.
pub open spec fn page_slots(children: Seq<NodeModel>) -> Map<Seq<char>, ElemModel>
    decreases children.len(),
{
    if children.len() == 0 {
        Map::empty()
    } else {
        let m = page_slots(children.drop_last());
        match children.last() {
            NodeModel::Text(_) => m,
            NodeModel::Elem(c) => match c.attr(slot_attr()) {
                None => m,
                Some(names) => insert_slot_names(m, split_commas(names), c),
            },
        }
    }
}

/// The page record a parsed root element describes, if it declares a
/// target template.
pub open spec fn page_of(root: ElemModel, input: Seq<char>) -> Option<PageModel> {
    match root.attr(template_attr()) {
        None => None,
        Some(t) => Some(
            PageModel {
                path: page_output_path(root.attr(path_attr()), input),
                template: t,
                slots: page_slots(root.children),
            },
        ),
    }
}

/// The page collection described by a sequence of parsed sources, each a
/// source path and its root element, keyed by output path.
pub open spec fn spec_load_pages(items: Seq<(String, Element)>) -> Map<Seq<char>, PageModel>
    decreases items.len(),
{
    if items.len() == 0 {
        Map::empty()
    } else {
        let m = spec_load_pages(items.drop_last());
        match page_of(items.last().1@, items.last().0@) {
            None => m,
            Some(p) => m.insert(p.path, p),
        }
    }
}

impl Page {
    /// Builds a page record from a parsed root element and the path of the
    /// source file it came from.
    pub fn new(element: &Element, input_path: &str) -> (r: Result<Page, PageError>)
        ensures
            match r {
                Ok(p) => page_of(element@, input_path@) == Some(p@),
                Err(e) => page_of(element@, input_path@) is None && e matches
                    PageError::MissingTemplate,
            },
    {
        let template = match element.attr("oeuvre-template") {
            Some(attr_value) => attr_value.clone(),
            None => {
                return Err(PageError::MissingTemplate);
            },
        };
        let path: String = match element.attr("oeuvre-path") {
            Some(attr_value) => {
                let av = attr_value.as_str();
                let avn = av.unicode_len();
                if avn > 0 && av.get_char(0) == '/' {
                    let r = av.substring_char(1, avn).to_owned();
                    proof {
                        assert(r@ =~= av@.skip(1));
                    }
                    r
                } else {
                    let parent = crate::strutil::parent_dir(input_path);
                    crate::strutil::join_path(parent.as_str(), av)
                }
            },
            None => input_path.to_owned(),
        };
        let ghost cs = element@.children;
        let mut slot_values: NameMap<Element> = NameMap::new();
        proof {
            lemma_nodes_model(element.children@);
            assert(cs == nodes_model(element.children@));
            assert(cs.take(0) =~= Seq::<NodeModel>::empty());
            assert(cs.len() == element.children@.len());
            assert(forall|k: int| 0 <= k < cs.len() ==> cs[k] == element.children@[k]@);
        }
        let mut i: usize = 0;
        while i < element.children.len()
            invariant
                0 <= i <= element.children.len(),
                cs == element@.children,
                cs.len() == element.children@.len(),
                forall|k: int| 0 <= k < cs.len() ==> cs[k] == element.children@[k]@,
                slot_values@ == page_slots(cs.take(i as int)),
            decreases element.children.len() - i,
        {
            proof {
                assert(cs.take(i as int + 1).drop_last() =~= cs.take(i as int));
                assert(cs.take(i as int + 1).last() == cs[i as int]);
            }
            match &element.children[i] {
                Node::Text(_) => {},
                Node::Elem(c) => {
                    match c.attr("oeuvre-slot") {
                        None => {},
                        Some(slot_names) => {
                            let parts = crate::strutil::split_commas_exec(slot_names.as_str());
                            let ghost pv = split_commas(slot_names@);
                            let ghost m0 = slot_values@;
                            proof {
                                assert(pv.take(0) =~= Seq::<Seq<char>>::empty());
                                assert(parts@.map_values(|t: String| t@) == pv);
                                assert(pv.len() == parts@.len());
                                assert(forall|k: int|
                                    0 <= k < pv.len() ==> pv[k] == (#[trigger] parts@[k])@);
                            }
                            let mut k: usize = 0;
                            while k < parts.len()
                                invariant
                                    0 <= k <= parts.len(),
                                    pv.len() == parts@.len(),
                                    forall|q: int|
                                        0 <= q < pv.len() ==> pv[q] == (#[trigger] parts@[q])@,
                                    slot_values@ == insert_slot_names(
                                        m0,
                                        pv.take(k as int),
                                        c@,
                                    ),
                                decreases parts.len() - k,
                            {
                                proof {
                                    assert(pv.take(k as int + 1).drop_last() =~= pv.take(
                                        k as int,
                                    ));
                                    assert(pv.take(k as int + 1).last() == pv[k as int]);
                                }
                                let trimmed = crate::strutil::trim(parts[k].as_str());
                                slot_values.insert(trimmed, c.duplicate());
                                k = k + 1;
                            }
                            proof {
                                assert(pv.take(parts@.len() as int) =~= pv);
                            }
                        },
                    }
                },
            }
            i = i + 1;
        }
        proof {
            assert(cs.take(element.children@.len() as int) =~= cs);
        }
        let r = Page { path, template, slot_values };
        proof {
            assert(page_of(element@, input_path@) == Some(r@));
        }
        Ok(r)
    }

    /// Loads the given parsed page sources — each a source path and its
    /// root element — and returns the pages keyed by output path; a source
    /// with no target template is skipped and the batch continues.
    pub fn load_many(sources: &Vec<(String, Element)>) -> (r: NameMap<Page>)
        ensures
            r@ == spec_load_pages(sources@),
    {
        let mut pages: NameMap<Page> = NameMap::new();
        proof {
            assert(sources@.take(0) =~= Seq::<(String, Element)>::empty());
        }
        let mut i: usize = 0;
        while i < sources.len()
            invariant
                0 <= i <= sources.len(),
                pages@ == spec_load_pages(sources@.take(i as int)),
            decreases sources.len() - i,
        {
            proof {
                assert(sources@.take(i as int + 1).drop_last() =~= sources@.take(i as int));
                assert(sources@.take(i as int + 1).last() == sources@[i as int]);
            }
            match Page::new(&sources[i].1, sources[i].0.as_str()) {
                Ok(page) => {
                    let key = page.path.clone();
                    pages.insert(key, page);
                },
                Err(_) => {},
            }
            i = i + 1;
        }
        proof {
            assert(sources@.take(sources@.len() as int) =~= sources@);
        }
        pages
    }

    /// The path the rendered page is written under, relative to the
    /// output directory.
    pub fn path(&self) -> (r: &String)
        ensures
            r@ == self@.path,
    {
        &self.path
    }

    /// The name of the target template.
    pub fn template(&self) -> (r: &String)
        ensures
            r@ == self@.template,
    {
        &self.template
    }

    /// Renders this page against its target template: succeeds exactly
    /// when the template exists, and then returns the fully substituted
    /// output tree.
    pub fn render(
        &self,
        templates: &NameMap<Template>,
        snippets: &NameMap<Snippet>,
    ) -> (r: Result<Element, RenderError>)
        ensures
            match r {
                Ok(e) => templates@.contains_key(self@.template) && e@ == spec_render(
                    templates@[self@.template].element,
                    self@.slots,
                    snippet_elements(snippets@),
                    RENDER_DEPTH_LIMIT as nat,
                ),
                Err(err) => !templates@.contains_key(self@.template) && (err matches
                    RenderError::TemplateNotFound(n) && n@ == self@.template),
            },
    {
        let template = match templates.get(self.template.as_str()) {
            Some(template) => template,
            None => {
                return Err(RenderError::TemplateNotFound(self.template.clone()));
            },
        };
        Ok(render_template(template.element(), &self.slot_values, snippets))
    }
}

} // verus!
