//! Operations on paths that the standard library computes from the text of a
//! path alone, without looking at the file system. What they return follows
//! the conventions for paths of the system that the library is built for.

use vstd::prelude::*;

verus! {

/// What `std::path::Path::file_name` returns for a path: its last component,
/// where that is an ordinary name.
pub uninterp spec fn spec_file_name(path: Seq<char>) -> Option<Seq<char>>;

/// How `std::path::Path` prints a path for debugging: between double quotes,
/// with the characters escaped that need it.
pub uninterp spec fn spec_quoted(path: Seq<char>) -> Seq<char>;

/// What `std::path::Path::join` returns: the path that `relative` names when
/// it is looked up from `base`.
pub uninterp spec fn spec_join(base: Seq<char>, relative: Seq<char>) -> Seq<char>;

/// `std::path::Path::file_name` on the path `path`: the last component of
/// the path, as the standard library determines it.
#[verifier::external_body]
pub(crate) fn file_name(path: &str) -> (name: Option<String>)
    ensures
        name.deep_view() == spec_file_name(path@),
{
    let name = std::path::Path::new(path).file_name()?;
    Some(name.to_string_lossy().into_owned())
}

/// The `Debug` form of `std::path::Path` for the path `path`.
#[verifier::external_body]
pub(crate) fn quoted(path: &str) -> (shown: String)
    ensures
        shown@ == spec_quoted(path@),
{
    format!("{:?}", std::path::Path::new(path))
}

/// `std::path::Path::join` of `base` and `relative`.
#[verifier::external_body]
pub(crate) fn join(base: &str, relative: &str) -> (joined: String)
    ensures
        joined@ == spec_join(base@, relative@),
{
    std::path::Path::new(base).join(relative).to_string_lossy().into_owned()
}

} // verus!
