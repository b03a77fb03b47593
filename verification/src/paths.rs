//! Path normalization for output files.

use vstd::prelude::*;
use crate::strutil::join_spec;

verus! {

/// The lexically cleaned form of a path: redundant separators and `.`
/// components removed, `..` components resolved against what precedes
/// them. The result depends on the path text alone.
pub uninterp spec fn cleaned_of(s: Seq<char>) -> Seq<char>;

/// Relies on `path_clean::clean`: a purely lexical path normalization,
/// a function of the path text alone.
#[verifier::external_body]
fn clean_path(s: &str) -> (r: String)
    ensures
        r@ == cleaned_of(s@),
{
    path_clean::clean(s).to_string_lossy().into_owned()
}

/// The file a rendered page is written to: the page's path placed under
/// the output directory, cleaned.
pub fn output_file_path(output_dir: &str, page_path: &str) -> (r: String)
    ensures
        r@ == cleaned_of(join_spec(output_dir@, page_path@)),
{
    let joined = crate::strutil::join_path(output_dir, page_path);
    clean_path(joined.as_str())
}

} // verus!
