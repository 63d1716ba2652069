//! Follow-up notes about lockfiles after a manifest update.

use vstd::prelude::*;
use crate::paths::{file_name_of, parent_dir, plain_name, slash_entry};
use crate::text::{chars_of, eq_chars, owned};

verus! {

pub open spec fn note_node() -> Seq<char> {
    "lockfile regeneration for npm, pnpm, yarn, and bun is planned but not implemented"@
}

pub open spec fn note_python() -> Seq<char> {
    "lockfile regeneration for uv, Poetry, PDM, Pipenv, and pip-tools is planned but not implemented"@
}

/// The note for a manifest file name: npm-family lockfiles for
/// `package.json`; Python lockfiles for `pyproject.toml`, `Pipfile` and
/// `requirements.in` (names matched exactly).
pub open spec fn spec_lockfile_note(name: Seq<char>) -> Option<Seq<char>> {
    if name == "package.json"@ {
        Some(note_node())
    } else if name == "pyproject.toml"@ || name == "Pipfile"@ || name == "requirements.in"@ {
        Some(note_python())
    } else {
        None
    }
}

pub fn lockfile_note_for_name(name: &str) -> (r: Option<String>)
    ensures
        crate::version::sopt(r) == spec_lockfile_note(name@),
{
    let n = chars_of(name);
    let n = n.as_slice();
    if eq_chars(n, chars_of("package.json").as_slice()) {
        Some(owned("lockfile regeneration for npm, pnpm, yarn, and bun is planned but not implemented"))
    } else if eq_chars(n, chars_of("pyproject.toml").as_slice()) || eq_chars(
        n,
        chars_of("Pipfile").as_slice(),
    ) || eq_chars(n, chars_of("requirements.in").as_slice()) {
        Some(
            owned(
                "lockfile regeneration for uv, Poetry, PDM, Pipenv, and pip-tools is planned but not implemented",
            ),
        )
    } else {
        None
    }
}

/// The lockfile note for a manifest path, chosen by its file name (the
/// final component of the path, which for a longer path the platform
/// decides; a path that is one plain name is its own file name, and `..`
/// has none, so it gets no note).
pub fn planned_lockfile_note(manifest_path: &str) -> (r: Option<String>)
    ensures
        r matches Some(n) ==> n@ == note_node() || n@ == note_python(),
        plain_name(manifest_path@) ==> crate::version::sopt(r) == spec_lockfile_note(
            manifest_path@,
        ),
        parent_dir(manifest_path@) ==> r is None,
        forall|k: int|
            #[trigger] slash_entry(manifest_path@, k) ==> crate::version::sopt(r) == spec_lockfile_note(
                manifest_path@.skip(k + 1),
            ),
{
    match file_name_of(manifest_path) {
        Some(name) => lockfile_note_for_name(name.as_str()),
        None => None,
    }
}

} // verus!
