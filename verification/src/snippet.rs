//! Snippets: named, reusable element fragments includable from any template
//! or page.

use vstd::prelude::*;
use crate::dom::{Element, ElemModel};
use crate::library::{spec_library, LibraryError};
use crate::names::NameMap;

verus! {

/// An element containing shared content that can be reused across pages and
/// templates, under a unique name.
pub struct Snippet {
    pub element: Element,
    pub name: String,
}

/// The mathematical model of a `Snippet`.
#[verifier::ext_equal]
pub struct SnippetModel {
    pub name: Seq<char>,
    pub element: ElemModel,
}

impl View for Snippet {
    type V = SnippetModel;

    open spec fn view(&self) -> SnippetModel {
        SnippetModel { name: self.name@, element: self.element@ }
    }
}

impl Snippet {
    /// Accepts a parsed root element as a snippet when it declares a name
    /// not already in use.
    fn new(element: Element, snippets: &NameMap<Snippet>) -> (r: Result<Snippet, LibraryError>)
        ensures
            match element@.attr(crate::reserved::name_attr()) {
                None => r matches Err(LibraryError::MissingName),
                Some(n) => if snippets@.contains_key(n) {
                    r matches Err(LibraryError::DuplicateName(m)) && m@ == n
                } else {
                    r matches Ok(s) && s@.element == element@ && s@.name == n
                },
            },
    {
        let name = match element.attr("oeuvre-name") {
            None => {
                return Err(LibraryError::MissingName);
            },
            Some(attr_value) => attr_value.clone(),
        };
        if snippets.contains_key(name.as_str()) {
            return Err(LibraryError::DuplicateName(name));
        }
        Ok(Snippet { element, name })
    }

    /// Builds the snippet library from parsed root elements, in load order,
    /// keyed by declared name; a root with no name, or with a name already
    /// taken, is skipped and the batch continues.
    pub fn load_many(roots: &Vec<Element>) -> (r: NameMap<Snippet>)
        ensures
            crate::render::snippet_elements(r@) == spec_library(
                roots@.map_values(|e: Element| e@),
            ),
            forall|k: Seq<char>| r@.contains_key(k) ==> (#[trigger] r@[k]).name == k,
    {
        let ghost models = roots@.map_values(|e: Element| e@);
        let mut snippets: NameMap<Snippet> = NameMap::new();
        proof {
            assert(models.take(0) =~= Seq::<ElemModel>::empty());
            assert(crate::render::snippet_elements(snippets@) =~= spec_library(models.take(0)));
        }
        let mut i: usize = 0;
        while i < roots.len()
            invariant
                0 <= i <= roots.len(),
                models == roots@.map_values(|e: Element| e@),
                models.len() == roots@.len(),
                crate::render::snippet_elements(snippets@) == spec_library(models.take(i as int)),
                forall|k: Seq<char>|
                    snippets@.contains_key(k) ==> (#[trigger] snippets@[k]).name == k,
            decreases roots.len() - i,
        {
            proof {
                assert(models.take(i as int + 1).drop_last() =~= models.take(i as int));
                assert(models.take(i as int + 1).last() == models[i as int]);
                assert(models[i as int] == roots@[i as int]@);
            }
            match Snippet::new(roots[i].duplicate(), &snippets) {
                Ok(snippet) => {
                    let key = snippet.name.clone();
                    snippets.insert(key, snippet);
                    proof {
                        assert(crate::render::snippet_elements(snippets@) =~= spec_library(
                            models.take(i as int + 1),
                        ));
                    }
                },
                Err(_) => {
                    proof {
                        assert(crate::render::snippet_elements(snippets@) =~= spec_library(
                            models.take(i as int + 1),
                        ));
                    }
                },
            }
            i = i + 1;
        }
        proof {
            assert(models.take(roots@.len() as int) =~= models);
        }
        snippets
    }
}

} // verus!
