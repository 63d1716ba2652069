//! What the library asks of paths: their final component, and how a path
//! reads relative to a root directory.

use vstd::prelude::*;

verus! {

/// The path `..`.
pub open spec fn parent_dir(p: Seq<char>) -> bool {
    p =~= seq!['.', '.']
}

/// A path that is one plain name: not empty, not `.` or `..`, and without a
/// character that separates components or starts a prefix on any platform
/// (`/`, backslash, `:`).
pub open spec fn plain_name(p: Seq<char>) -> bool {
    &&& p.len() > 0
    &&& p != seq!['.']
    &&& !parent_dir(p)
    &&& forall|i: int| 0 <= i < p.len() ==> #[trigger] p[i] != '/' && p[i] != '\\' && p[i] != ':'
}

/// Whether `p` is a directory part, a `/` at index `k`, and a plain name
/// after it, with no backslash or `:` before the `/` and without two
/// leading slashes (which some platforms read as a network prefix): on
/// every platform its final component is the name after the `/`.
pub open spec fn slash_entry(p: Seq<char>, k: int) -> bool {
    &&& 0 <= k < p.len()
    &&& p[k] == '/'
    &&& plain_name(p.skip(k + 1))
    &&& forall|i: int| 0 <= i < k ==> #[trigger] p[i] != '\\' && p[i] != ':'
    &&& !(p.len() >= 2 && p[0] == '/' && p[1] == '/')
}

/// The final component of a path given as text, when it is valid UTF-8
/// (std's `Path::file_name`, then `OsStr::to_str`). Which characters
/// separate components depends on the platform; what is stated holds on
/// every one: a path that is one plain name is its own final component
/// (`Path::new("foo.txt").file_name()` is `foo.txt`), so is the plain name
/// after the last `/` of a path that holds no backslash or `:` and does
/// not start with two slashes (`Path::new("a/b/foo.txt")`), and `..` has
/// none. Of other paths nothing is stated.
#[verifier::external_body]
pub(crate) fn file_name_of(path: &str) -> (r: Option<String>)
    ensures
        plain_name(path@) ==> r is Some && r->0@ == path@,
        parent_dir(path@) ==> r is None,
        forall|k: int| #[trigger] slash_entry(path@, k) ==> r is Some && r->0@ == path@.skip(k + 1),
{
    std::path::Path::new(path).file_name().and_then(|name| name.to_str()).map(|name| name.to_string())
}

/// What holds, on every platform, of `label` as `path` shown relative to
/// `root`: a path equal to the root reads as the empty text, and a plain
/// name after a `/` that follows the (non-empty) root reads as that name.
pub open spec fn relative_label(root: Seq<char>, path: Seq<char>, label: Seq<char>) -> bool {
    &&& path == root ==> label.len() == 0
    &&& forall|k: int|
        #[trigger] slash_entry(path, k) && root.len() > 0 && path.take(k) == root ==> label
            == path.skip(k + 1)
}

/// `path` with the leading components of `root` taken off (std's
/// `Path::strip_prefix`, shown with `Path::to_string_lossy`); none when
/// `root` is not a prefix of it. Component rules depend on the platform;
/// what is stated holds on every one: a path equal to the root leaves the
/// empty path, and a non-empty root followed by `/` and a plain name (the
/// path holding no backslash or `:` before that `/` and not starting with
/// two slashes) leaves that name. Of other paths nothing is stated.
#[verifier::external_body]
fn strip_path_prefix(root: &str, path: &str) -> (r: Option<String>)
    ensures
        path@ == root@ ==> r is Some && r->0@.len() == 0,
        forall|k: int|
            #[trigger] slash_entry(path@, k) && root@.len() > 0 && path@.take(k) == root@ ==> r is Some
                && r->0@ == path@.skip(k + 1),
{
    std::path::Path::new(path).strip_prefix(root).ok().map(|rest| rest.to_string_lossy().to_string())
}

/// `path` shown relative to `root` when `root` is a prefix of it, else
/// `path` itself.
pub(crate) fn display_path(root: &str, path: &str) -> (r: String)
    ensures
        relative_label(root@, path@, r@),
{
    match strip_path_prefix(root, path) {
        Some(rest) => rest,
        None => path.to_string(),
    }
}

} // verus!
