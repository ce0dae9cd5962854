use vstd::prelude::*;

verus! {

/// What `std::path::Path::file_name` gives for the path `path`, as text: the
/// last component, or `None` where the path ends in `..` or is a root or a
/// prefix alone. Paths are read in the syntax of the platform the crate is
/// built for.
pub uninterp spec fn file_name_of(path: Seq<char>) -> Option<Seq<char>>;

/// What `std::path::Path::parent` gives for the path `path`, as text.
pub uninterp spec fn parent_of(path: Seq<char>) -> Option<Seq<char>>;

/// What `std::path::Path::join` gives for `base` and `name`, as text.
pub uninterp spec fn joined(base: Seq<char>, name: Seq<char>) -> Seq<char>;

/// Calls `std::path::Path::file_name` on `path` and hands back the component
/// as a `String`. A component of a path made from a `&str` is valid Unicode,
/// so the lossy conversion keeps it whole. Claimed: the result is
/// `file_name_of(path@)`.
#[verifier::external_body]
pub(crate) fn file_name(path: &str) -> (r: Option<String>)
    ensures
        match r {
            Some(n) => file_name_of(path@) == Some(n@),
            None => file_name_of(path@) is None,
        },
{
    match std::path::Path::new(path).file_name() {
        Some(n) => Some(n.to_string_lossy().into_owned()),
        None => None,
    }
}

/// Calls `std::path::Path::parent` on `path` and hands back the parent as a
/// `String`. Claimed: the result is `parent_of(path@)`.
#[verifier::external_body]
pub(crate) fn parent(path: &str) -> (r: Option<String>)
    ensures
        match r {
            Some(p) => parent_of(path@) == Some(p@),
            None => parent_of(path@) is None,
        },
{
    match std::path::Path::new(path).parent() {
        Some(p) => Some(p.to_string_lossy().into_owned()),
        None => None,
    }
}

/// Calls `std::path::Path::join` on `base` and `name` and hands back the
/// joined path as a `String`. Claimed: the result is `joined(base@, name@)`.
#[verifier::external_body]
pub(crate) fn join_path(base: &str, name: &str) -> (r: String)
    ensures
        r@ == joined(base@, name@),
{
    std::path::Path::new(base).join(name).to_string_lossy().into_owned()
}

/// Whether `std::path::Path` holds the two paths equal: equal component by
/// component, so that, among others, a doubled separator or a trailing one
/// makes no difference.
pub uninterp spec fn same_path_of(a: Seq<char>, b: Seq<char>) -> bool;

/// Calls `==` on `std::path::Path::new(a)` and `std::path::Path::new(b)`.
/// Claimed: the answer is `same_path_of(a@, b@)`, and equal texts are equal
/// paths (`Path` is `Eq`, so its equality is reflexive).
#[verifier::external_body]
pub(crate) fn same_path(a: &str, b: &str) -> (r: bool)
    ensures
        r == same_path_of(a@, b@),
        a@ == b@ ==> r,
{
    std::path::Path::new(a) == std::path::Path::new(b)
}

/// Calls `std::path::Path::exists` on `path`: whether something is there on
/// disk now. The answer depends on the disk and on when it is asked; the one
/// thing claimed is that the empty path, which names no entity, is never
/// there.
#[verifier::external_body]
pub(crate) fn path_exists(path: &str) -> (r: bool)
    ensures
        path@.len() == 0 ==> !r,
{
    std::path::Path::new(path).exists()
}

/// Calls `std::path::Path::is_symlink` on `path`: whether a symbolic link (or
/// a junction) is there on disk now, without following it. The answer depends
/// on the disk, so nothing is claimed of it.
#[verifier::external_body]
pub(crate) fn path_is_symlink(path: &str) -> (r: bool) {
    std::path::Path::new(path).is_symlink()
}

} // verus!
