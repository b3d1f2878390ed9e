//! Path arithmetic on UTF-8 path strings, done by `std::path`.
//!
//! The standard library decides what the parent, the final component, the
//! remainder after a prefix and the join of two paths are. On the Unix
//! targets that this library is for, each result is a function of the path
//! text alone and is given a name here, so that the rest of the library can
//! say exactly which paths it handles.

use vstd::prelude::*;

verus! {

/// The text of `std::path::Path::parent`, if the path has a parent.
pub uninterp spec fn path_parent(path: Seq<char>) -> Option<Seq<char>>;

/// The text of `std::path::Path::file_name`, if the path ends in a normal
/// component.
pub uninterp spec fn path_file_name(path: Seq<char>) -> Option<Seq<char>>;

/// The text of `std::path::Path::strip_prefix`, if `base` is a prefix of
/// `path` component by component.
pub uninterp spec fn path_strip_prefix(path: Seq<char>, base: Seq<char>) -> Option<Seq<char>>;

/// The text of `std::path::Path::join`.
pub uninterp spec fn path_join(base: Seq<char>, rel: Seq<char>) -> Seq<char>;

/// The text inside an optional string.
pub open spec fn opt_text(r: Option<String>) -> Option<Seq<char>> {
    match r {
        Some(s) => Some(s@),
        None => None,
    }
}

/// Calls `std::path::Path::parent` on the path written in `path`.
///
/// Trusted: the result is the named function `path_parent` of the path text,
/// and nothing more is claimed of it. The parent of a UTF-8 path is UTF-8, so
/// turning it back into a string loses nothing.
#[verifier::external_body]
pub(crate) fn parent(path: &str) -> (r: Option<String>)
    ensures
        opt_text(r) == path_parent(path@),
{
    match std::path::Path::new(path).parent() {
        Some(p) => Some(p.to_string_lossy().into_owned()),
        None => None,
    }
}

/// Calls `std::path::Path::file_name` on the path written in `path`.
///
/// Trusted: the result is the named function `path_file_name` of the path
/// text, and nothing more is claimed of it.
#[verifier::external_body]
pub(crate) fn file_name(path: &str) -> (r: Option<String>)
    ensures
        opt_text(r) == path_file_name(path@),
{
    match std::path::Path::new(path).file_name() {
        Some(name) => Some(name.to_string_lossy().into_owned()),
        None => None,
    }
}

/// Calls `std::path::Path::strip_prefix` on the path written in `path`, with
/// the path written in `base` as the prefix.
///
/// Trusted: the result is the named function `path_strip_prefix` of the two
/// texts; `None` stands for the error that std returns when `base` is no
/// prefix of `path`.
#[verifier::external_body]
pub(crate) fn strip_prefix(path: &str, base: &str) -> (r: Option<String>)
    ensures
        opt_text(r) == path_strip_prefix(path@, base@),
{
    match std::path::Path::new(path).strip_prefix(base) {
        Ok(rel) => Some(rel.to_string_lossy().into_owned()),
        Err(_) => None,
    }
}

/// Calls `std::path::Path::join` on the path written in `base`, with the path
/// written in `rel` as the argument.
///
/// Trusted: the result is the named function `path_join` of the two texts.
#[verifier::external_body]
pub(crate) fn join(base: &str, rel: &str) -> (r: String)
    ensures
        r@ == path_join(base@, rel@),
{
    std::path::Path::new(base).join(rel).to_string_lossy().into_owned()
}

} // verus!
