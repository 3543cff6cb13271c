//! Paths as text, and the path of an entry relative to its walk root.

use vstd::prelude::*;

verus! {

/// The path named by a string. The library holds a path as its text.
pub fn to_path(input: &str) -> (r: String)
    ensures
        r@ == input@,
{
    input.to_owned()
}

/// The text of the path that leads from `base` to `path`, as
/// `pathdiff::diff_paths` computes it lexically, or `None` where it gives
/// no path or a path that is not valid text.
pub uninterp spec fn path_diff(path: Seq<char>, base: Seq<char>) -> Option<Seq<char>>;

/// The path of `path` relative to `base`.
///
/// Relies on `pathdiff::diff_paths`, which works on the components of the
/// two paths and reads no file system.
#[verifier::external_body]
pub(crate) fn relative_path(path: &str, base: &str) -> (r: Option<String>)
    ensures
        r matches Some(s) ==> path_diff(path@, base@) == Some(s@),
        r is None ==> path_diff(path@, base@) is None,
{
    match pathdiff::diff_paths(path, base) {
        Some(p) => p.to_str().map(|s| s.to_string()),
        None => None,
    }
}

} // verus!
