//! Templates: named root elements with fillable slot markers, into which
//! page content is composed.

use vstd::prelude::*;
use crate::dom::{Element, ElemModel};
use crate::library::{spec_library, LibraryError};
use crate::names::NameMap;

verus! {

/// An element representing a document root with fillable slot elements,
/// under a unique name.
pub struct Template {
    pub element: Element,
    name: String,
}

/// The mathematical model of a `Template`.
#[verifier::ext_equal]
pub struct TemplateModel {
    pub name: Seq<char>,
    pub element: ElemModel,
}

impl View for Template {
    type V = TemplateModel;

    closed spec fn view(&self) -> TemplateModel {
        TemplateModel { name: self.name@, element: self.element@ }
    }
}

/// The elements of a template library, by name.
pub open spec fn template_elements(m: Map<Seq<char>, TemplateModel>) -> Map<Seq<char>, ElemModel> {
    m.map_values(|t: TemplateModel| t.element)
}

impl Template {
    /// The template's root element.
    pub fn element(&self) -> (r: &Element)
        ensures
            r@ == self@.element,
    {
        &self.element
    }

    /// Accepts a parsed root element as a template when it declares a name
    /// not already in use.
    fn new(element: Element, templates: &NameMap<Template>) -> (r: Result<Template, LibraryError>)
        ensures
            match element@.attr(crate::reserved::name_attr()) {
                None => r matches Err(LibraryError::MissingName),
                Some(n) => if templates@.contains_key(n) {
                    r matches Err(LibraryError::DuplicateName(m)) && m@ == n
                } else {
                    r matches Ok(t) && t@.element == element@ && t@.name == n
                },
            },
    {
        let name = match element.attr("oeuvre-name") {
            None => {
                return Err(LibraryError::MissingName);
            },
            Some(attr_value) => attr_value.clone(),
        };
        if templates.contains_key(name.as_str()) {
            return Err(LibraryError::DuplicateName(name));
        }
        Ok(Template { element, name })
    }

    /// Builds the template library from parsed root elements, in load
    /// order, keyed by declared name; a root with no name, or with a name
    /// already taken, is skipped and the batch continues.
    pub fn load_many(roots: &Vec<Element>) -> (r: NameMap<Template>)
        ensures
            template_elements(r@) == spec_library(roots@.map_values(|e: Element| e@)),
            forall|k: Seq<char>| r@.contains_key(k) ==> (#[trigger] r@[k]).name == k,
    {
        let ghost models = roots@.map_values(|e: Element| e@);
        let mut templates: NameMap<Template> = NameMap::new();
        proof {
            assert(models.take(0) =~= Seq::<ElemModel>::empty());
            assert(template_elements(templates@) =~= spec_library(models.take(0)));
        }
        let mut i: usize = 0;
        while i < roots.len()
            invariant
                0 <= i <= roots.len(),
                models == roots@.map_values(|e: Element| e@),
                models.len() == roots@.len(),
                template_elements(templates@) == spec_library(models.take(i as int)),
                forall|k: Seq<char>|
                    templates@.contains_key(k) ==> (#[trigger] templates@[k]).name == k,
            decreases roots.len() - i,
        {
            proof {
                assert(models.take(i as int + 1).drop_last() =~= models.take(i as int));
                assert(models.take(i as int + 1).last() == models[i as int]);
                assert(models[i as int] == roots@[i as int]@);
            }
            match Template::new(roots[i].duplicate(), &templates) {
                Ok(template) => {
                    let key = template.name.clone();
                    templates.insert(key, template);
                    proof {
                        assert(template_elements(templates@) =~= spec_library(
                            models.take(i as int + 1),
                        ));
                    }
                },
                Err(_) => {
                    proof {
                        assert(template_elements(templates@) =~= spec_library(
                            models.take(i as int + 1),
                        ));
                    }
                },
            }
            i = i + 1;
        }
        proof {
            assert(models.take(roots@.len() as int) =~= models);
        }
        templates
    }
}

} // verus!
