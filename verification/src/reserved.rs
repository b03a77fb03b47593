//! The reserved vocabulary: every attribute and tag name the engine consumes
//! starts with one fixed prefix, and three reserved tags act as markers.

use vstd::prelude::*;
use vstd::string::StrSliceExecFns;

verus! {

/// The prefix of every reserved attribute and tag name.
pub open spec fn reserved_prefix() -> Seq<char> {
    "oeuvre-"@
}

/// The tag of the marker that splices a named snippet in place.
pub open spec fn include_tag() -> Seq<char> {
    "oeuvre-include"@
}

/// The tag of the marker that a page-supplied slot value replaces.
pub open spec fn slot_tag() -> Seq<char> {
    "oeuvre-slot"@
}

/// The tag of the wrapper whose children, not itself, become the
/// substituted content of a slot.
pub open spec fn fragment_tag() -> Seq<char> {
    "oeuvre-fragment"@
}

/// The attribute on an `oeuvre-include` marker naming the snippet.
pub open spec fn snippet_attr() -> Seq<char> {
    "oeuvre-snippet"@
}

/// The attribute on an `oeuvre-slot` marker naming the slot, and the
/// attribute declaring the name of a template or snippet root.
pub open spec fn name_attr() -> Seq<char> {
    "oeuvre-name"@
}

/// The attribute on a page root naming its target template.
pub open spec fn template_attr() -> Seq<char> {
    "oeuvre-template"@
}

/// The attribute on a page root overriding its output path.
pub open spec fn path_attr() -> Seq<char> {
    "oeuvre-path"@
}

/// The attribute on a page's direct child listing the slots it fills.
pub open spec fn slot_attr() -> Seq<char> {
    "oeuvre-slot"@
}

/// The attribute on a dataset field marking it required.
pub open spec fn required_attr() -> Seq<char> {
    "oeuvre-required"@
}

/// The attribute on a dataset field naming its type.
pub open spec fn type_attr() -> Seq<char> {
    "oeuvre-type"@
}

/// Whether a name belongs to the reserved vocabulary.
pub open spec fn is_reserved(name: Seq<char>) -> bool {
    name.len() >= reserved_prefix().len() && name.subrange(
        0,
        reserved_prefix().len() as int,
    ) == reserved_prefix()
}

/// The three marker tags are pairwise distinct names.
pub proof fn lemma_tags_distinct()
    ensures
        slot_tag() != include_tag(),
        fragment_tag() != include_tag(),
        fragment_tag() != slot_tag(),
{
    reveal_strlit("oeuvre-slot");
    reveal_strlit("oeuvre-include");
    reveal_strlit("oeuvre-fragment");
    assert(slot_tag().len() == 11);
    assert(include_tag().len() == 14);
    assert(fragment_tag().len() == 15);
}

/// Decides whether a name starts with the reserved prefix.
pub fn name_is_reserved(s: &str) -> (r: bool)
    ensures
        r == is_reserved(s@),
{
    let p = "oeuvre-";
    proof {
        reveal_strlit("oeuvre-");
    }
    let n = s.unicode_len();
    if n < 7 {
        return false;
    }
    let mut i: usize = 0;
    while i < 7
        invariant
            0 <= i <= 7,
            s@.len() >= 7,
            p@ == reserved_prefix(),
            p@.len() == 7,
            forall|k: int| 0 <= k < i ==> s@[k] == reserved_prefix()[k],
        decreases 7 - i,
    {
        if s.get_char(i) != p.get_char(i) {
            assert(!is_reserved(s@)) by {
                assert(s@.subrange(0, 7)[i as int] == s@[i as int]);
            }
            return false;
        }
        i = i + 1;
    }
    assert(s@.subrange(0, 7) =~= reserved_prefix());
    true
}

} // verus!
