//! Loading a library of named definitions: the rules shared by the template
//! and snippet collections. Within one collection names are unique, and the
//! first successfully parsed definition for a name wins; a later file
//! declaring the same name is rejected and the original kept.

use vstd::prelude::*;
use crate::dom::ElemModel;
use crate::reserved::name_attr;

verus! {

/// Why one candidate definition was rejected. No rejection is fatal: the
/// batch continues with the next candidate.
#[derive(Debug)]
pub enum LibraryError {
    /// The root element has no `oeuvre-name` attribute.
    MissingName,
    /// The carried name is already in use by an earlier definition.
    DuplicateName(String),
}

/// The collection described by a sequence of parsed root elements, in load
/// order: each root that declares a name not yet present enters the
/// collection; a root with no name, or with a name already present, is
/// skipped.
pub open spec fn spec_library(roots: Seq<ElemModel>) -> Map<Seq<char>, ElemModel>
    decreases roots.len(),
{
    if roots.len() == 0 {
        Map::empty()
    } else {
        let m = spec_library(roots.drop_last());
        match roots.last().attr(name_attr()) {
            None => m,
            Some(n) => if m.contains_key(n) {
                m
            } else {
                m.insert(n, roots.last())
            },
        }
    }
}

/// A name is in the collection exactly when some root declares it.
pub proof fn lemma_library_contains(roots: Seq<ElemModel>, n: Seq<char>)
    ensures
        spec_library(roots).contains_key(n) <==> exists|j: int|
            0 <= j < roots.len() && (#[trigger] roots[j]).attr(name_attr()) == Some(n),
    decreases roots.len(),
{
    if roots.len() > 0 {
        lemma_library_contains(roots.drop_last(), n);
        if spec_library(roots).contains_key(n) {
            if roots.last().attr(name_attr()) == Some(n) {
                assert(roots[roots.len() - 1].attr(name_attr()) == Some(n));
            } else {
                let j = choose|j: int|
                    0 <= j < roots.drop_last().len() && (#[trigger] roots.drop_last()[j]).attr(
                        name_attr(),
                    ) == Some(n);
                assert(roots[j].attr(name_attr()) == Some(n));
            }
        }
        if exists|j: int|
            0 <= j < roots.len() && (#[trigger] roots[j]).attr(name_attr()) == Some(n) {
            let j = choose|j: int|
                0 <= j < roots.len() && (#[trigger] roots[j]).attr(name_attr()) == Some(n);
            if j < roots.len() - 1 {
                assert(roots.drop_last()[j].attr(name_attr()) == Some(n));
            }
        }
    }
}

/// Name uniqueness, first wins: when a root declares a name and no earlier
/// root declares the same name, the collection maps that name to exactly
/// that root — a later file redeclaring it leaves the entry unchanged.
pub proof fn lemma_library_first_wins(roots: Seq<ElemModel>, i: int, n: Seq<char>)
    requires
        0 <= i < roots.len(),
        roots[i].attr(name_attr()) == Some(n),
        forall|j: int| 0 <= j < i ==> (#[trigger] roots[j]).attr(name_attr()) != Some(n),
    ensures
        spec_library(roots).contains_key(n),
        spec_library(roots)[n] == roots[i],
    decreases roots.len(),
{
    if i == roots.len() - 1 {
        lemma_library_contains(roots.drop_last(), n);
        assert forall|j: int| 0 <= j < roots.drop_last().len() implies (
        #[trigger] roots.drop_last()[j]).attr(name_attr()) != Some(n) by {
            assert(roots.drop_last()[j] == roots[j]);
        }
        assert(!spec_library(roots.drop_last()).contains_key(n));
    } else {
        assert forall|j: int| 0 <= j < i implies (#[trigger] roots.drop_last()[j]).attr(
            name_attr(),
        ) != Some(n) by {
            assert(roots.drop_last()[j] == roots[j]);
        }
        assert(roots.drop_last()[i] == roots[i]);
        lemma_library_first_wins(roots.drop_last(), i, n);
    }
}

} // verus!
