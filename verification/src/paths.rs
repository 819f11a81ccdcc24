//! The path operations that locate sockets and programs. Each is the one of
//! `std::path::Path` of the same name, on paths that are valid UTF-8.
use vstd::prelude::*;

verus! {

/// The characters of an optional string.
pub open spec fn opt_chars(o: Option<String>) -> Option<Seq<char>> {
    match o {
        Some(s) => Some(s@),
        None => None,
    }
}

/// What `Path::file_stem` gives for `path`.
pub uninterp spec fn path_file_stem(path: Seq<char>) -> Option<Seq<char>>;

/// What `Path::with_file_name` gives for `path` and `name`.
pub uninterp spec fn path_with_file_name(path: Seq<char>, name: Seq<char>) -> Seq<char>;

/// What `Path::parent` gives for `path`.
pub uninterp spec fn path_parent(path: Seq<char>) -> Option<Seq<char>>;

/// What `Path::join` gives for `path` and `tail`.
pub uninterp spec fn path_join(path: Seq<char>, tail: Seq<char>) -> Seq<char>;

/// Calls `Path::file_stem`: the final component of `path` without its
/// extension. Its result is taken as `path_file_stem(path)`; nothing more
/// is claimed of it.
#[verifier::external_body]
pub(crate) fn file_stem(path: &str) -> (stem: Option<String>)
    ensures
        opt_chars(stem) == path_file_stem(path@),
{
    match std::path::Path::new(path).file_stem() {
        Some(stem) => Some(stem.to_string_lossy().into_owned()),
        None => None,
    }
}

/// Calls `Path::with_file_name`: `path` with its final component replaced
/// by `name`. Its result is taken as `path_with_file_name(path, name)`.
#[verifier::external_body]
pub(crate) fn with_file_name(path: &str, name: &str) -> (joined: String)
    ensures
        joined@ == path_with_file_name(path@, name@),
{
    std::path::Path::new(path).with_file_name(name).to_string_lossy().into_owned()
}

/// Calls `Path::parent`: `path` without its final component, `None` for a
/// root or an empty path. Its result is taken as `path_parent(path)`.
#[verifier::external_body]
pub(crate) fn parent(path: &str) -> (up: Option<String>)
    ensures
        opt_chars(up) == path_parent(path@),
{
    match std::path::Path::new(path).parent() {
        Some(up) => Some(up.to_string_lossy().into_owned()),
        None => None,
    }
}

/// Calls `Path::join`: `tail` appended to `path` as further components. Its
/// result is taken as `path_join(path, tail)`.
#[verifier::external_body]
pub(crate) fn join(path: &str, tail: &str) -> (joined: String)
    ensures
        joined@ == path_join(path@, tail@),
{
    std::path::Path::new(path).join(tail).to_string_lossy().into_owned()
}

} // verus!
