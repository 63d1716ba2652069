//! Which files and directories manifest discovery considers.

use vstd::prelude::*;
use crate::cli::EcosystemFilter;
use crate::model::{Ecosystem, ManifestKind};
use crate::paths::{file_name_of, parent_dir, plain_name, slash_entry};
use crate::text::{chars_of, eq_ignore_case, lower, owned};

verus! {

/// The manifest file names looked for in a project directory.
pub open spec fn root_manifest_names() -> Seq<Seq<char>> {
    seq![
        "package.json"@,
        "pyproject.toml"@,
        "Pipfile"@,
        "setup.cfg"@,
        "requirements.txt"@,
        "requirements.in"@,
    ]
}

pub fn root_manifests() -> (r: Vec<String>)
    ensures
        crate::model::strings_view(r@) == root_manifest_names(),
{
    let r = vec![
        owned("package.json"),
        owned("pyproject.toml"),
        owned("Pipfile"),
        owned("setup.cfg"),
        owned("requirements.txt"),
        owned("requirements.in"),
    ];
    assert(crate::model::strings_view(r@) =~= root_manifest_names());
    r
}

/// Directory names that recursive discovery never enters (any ASCII case).
pub open spec fn skip_dir_names() -> Seq<Seq<char>> {
    seq![
        ".git"@,
        "node_modules"@,
        "target"@,
        "dist"@,
        "build"@,
        "coverage"@,
        ".venv"@,
        "venv"@,
        "__pycache__"@,
        ".tox"@,
        ".mypy_cache"@,
        ".pytest_cache"@,
    ]
}

pub open spec fn is_skipped_dir_name(name: Seq<char>) -> bool {
    exists|i: int| 0 <= i < skip_dir_names().len() && lower(name) == lower(#[trigger] skip_dir_names()[i])
}

pub fn skip_dir_name(name: &str) -> (r: bool)
    ensures
        r == is_skipped_dir_name(name@),
{
    let n = chars_of(name);
    let names = [
        ".git",
        "node_modules",
        "target",
        "dist",
        "build",
        "coverage",
        ".venv",
        "venv",
        "__pycache__",
        ".tox",
        ".mypy_cache",
        ".pytest_cache",
    ];
    let mut i: usize = 0;
    while i < 12
        invariant
            i <= 12,
            n@ == name@,
            forall|j: int| 0 <= j < 12 ==> (#[trigger] names@[j])@ == skip_dir_names()[j],
            forall|j: int| 0 <= j < i ==> lower(name@) != lower(#[trigger] skip_dir_names()[j]),
        decreases 12 - i,
    {
        let s = chars_of(names[i]);
        if eq_ignore_case(n.as_slice(), s.as_slice()) {
            return true;
        }
        i = i + 1;
    }
    false
}

/// Whether recursive discovery skips a directory, judged by its name (the
/// final component of `path`, which for a longer path the platform
/// decides). A path that is one plain name is judged as it stands, and `..`
/// is never skipped.
pub fn should_skip_dir(path: &str) -> (r: bool)
    ensures
        plain_name(path@) ==> r == is_skipped_dir_name(path@),
        parent_dir(path@) ==> !r,
        forall|k: int| #[trigger] slash_entry(path@, k) ==> r == is_skipped_dir_name(path@.skip(k + 1)),
{
    match file_name_of(path) {
        Some(name) => skip_dir_name(name.as_str()),
        None => false,
    }
}

pub open spec fn kind_ecosystem(kind: ManifestKind) -> Ecosystem {
    match kind {
        ManifestKind::PackageJson => Ecosystem::Node,
        _ => Ecosystem::Python,
    }
}

pub open spec fn spec_ecosystem_matches(kind: ManifestKind, filter: EcosystemFilter) -> bool {
    match filter {
        EcosystemFilter::All => true,
        EcosystemFilter::Python => kind_ecosystem(kind) == Ecosystem::Python,
        EcosystemFilter::Node => kind_ecosystem(kind) == Ecosystem::Node,
    }
}

/// Whether a manifest kind belongs to the ecosystems the filter selects.
pub fn ecosystem_matches(kind: ManifestKind, filter: EcosystemFilter) -> (r: bool)
    ensures
        r == spec_ecosystem_matches(kind, filter),
{
    let ecosystem = match kind {
        ManifestKind::PackageJson => Ecosystem::Node,
        ManifestKind::PyProject | ManifestKind::Pipfile | ManifestKind::Requirements
        | ManifestKind::SetupCfg => Ecosystem::Python,
    };
    match filter {
        EcosystemFilter::All => true,
        EcosystemFilter::Python => ecosystem == Ecosystem::Python,
        EcosystemFilter::Node => ecosystem == Ecosystem::Node,
    }
}

} // verus!
