//! Shared data model passed between parsing, lookup evaluation and reporting.
//!
//! Paths are carried as text: the library never touches the filesystem.

use vstd::prelude::*;
use crate::text::owned;

verus! {

#[derive(Clone, Copy, Debug, PartialEq, Eq, Structural, Hash, PartialOrd, Ord)]
pub enum Ecosystem {
    Python,
    Node,
}

/// The lowercase name under which an ecosystem is displayed and serialized.
pub open spec fn ecosystem_label(e: Ecosystem) -> Seq<char> {
    match e {
        Ecosystem::Python => "python"@,
        Ecosystem::Node => "node"@,
    }
}

impl Ecosystem {
    /// The display text of the ecosystem.
    pub fn label(&self) -> (r: String)
        ensures
            r@ == ecosystem_label(*self),
    {
        match self {
            Ecosystem::Python => owned("python"),
            Ecosystem::Node => owned("node"),
        }
    }
}

#[derive(Clone, Copy, Debug, PartialEq, Eq, Structural)]
pub enum RequirementSyntax {
    Node,
    Pep508,
    PythonConstraint,
}

#[derive(Clone, Debug)]
pub enum DependencyLocation {
    /// JSON object member, used when re-rendering `package.json`.
    Json { section: String, key: String },
    /// TOML array item, used for PEP 621-style dependency arrays.
    TomlArray { path: Vec<String>, index: usize },
    /// TOML table key, optionally targeting a nested `version` field.
    TomlKey { path: Vec<String>, key: String, field: Option<String> },
    /// Byte range within a text manifest such as requirements.txt or setup.cfg.
    TextSpan { start: usize, end: usize },
}

#[derive(Clone, Debug)]
pub struct Dependency {
    /// Name as written in the manifest and shown to the user.
    pub name: String,
    /// Registry name after handling aliases and ecosystem-specific normalization.
    pub lookup_name: String,
    pub ecosystem: Ecosystem,
    pub group: String,
    pub requirement: String,
    pub raw: String,
    pub syntax: RequirementSyntax,
    pub location: DependencyLocation,
    pub skip_reason: Option<String>,
}

/// The mathematical content of a `DependencyLocation`.
pub enum LocationModel {
    Json { section: Seq<char>, key: Seq<char> },
    TomlArray { path: Seq<Seq<char>>, index: int },
    TomlKey { path: Seq<Seq<char>>, key: Seq<char>, field: Option<Seq<char>> },
    TextSpan { start: int, end: int },
}

/// The mathematical content of a `Dependency`.
pub struct DependencyModel {
    pub name: Seq<char>,
    pub lookup_name: Seq<char>,
    pub ecosystem: Ecosystem,
    pub group: Seq<char>,
    pub requirement: Seq<char>,
    pub raw: Seq<char>,
    pub syntax: RequirementSyntax,
    pub location: LocationModel,
    pub skip_reason: Option<Seq<char>>,
}

pub open spec fn strings_view(v: Seq<String>) -> Seq<Seq<char>> {
    v.map_values(|s: String| s@)
}

pub open spec fn opt_view(o: Option<String>) -> Option<Seq<char>> {
    match o {
        Some(s) => Some(s@),
        None => None,
    }
}

impl View for DependencyLocation {
    type V = LocationModel;

    open spec fn view(&self) -> LocationModel {
        match self {
            DependencyLocation::Json { section, key } => LocationModel::Json {
                section: section@,
                key: key@,
            },
            DependencyLocation::TomlArray { path, index } => LocationModel::TomlArray {
                path: strings_view(path@),
                index: *index as int,
            },
            DependencyLocation::TomlKey { path, key, field } => LocationModel::TomlKey {
                path: strings_view(path@),
                key: key@,
                field: opt_view(*field),
            },
            DependencyLocation::TextSpan { start, end } => LocationModel::TextSpan {
                start: *start as int,
                end: *end as int,
            },
        }
    }
}

impl View for Dependency {
    type V = DependencyModel;

    open spec fn view(&self) -> DependencyModel {
        DependencyModel {
            name: self.name@,
            lookup_name: self.lookup_name@,
            ecosystem: self.ecosystem,
            group: self.group@,
            requirement: self.requirement@,
            raw: self.raw@,
            syntax: self.syntax,
            location: self.location@,
            skip_reason: opt_view(self.skip_reason),
        }
    }
}

/// The models of a sequence of dependencies.
pub open spec fn deps_view(v: Seq<Dependency>) -> Seq<DependencyModel> {
    v.map_values(|d: Dependency| d@)
}

#[derive(Clone, Copy, Debug, PartialEq, Eq, Structural)]
pub enum ManifestKind {
    PackageJson,
    PyProject,
    Pipfile,
    Requirements,
    SetupCfg,
}

#[derive(Debug)]
pub struct Manifest {
    /// The manifest's path, as text.
    pub path: String,
    pub kind: ManifestKind,
    pub original: String,
    pub dependencies: Vec<Dependency>,
}

#[derive(Clone, Copy, Debug, PartialEq, Eq, Structural)]
pub enum ReportStatus {
    Current,
    Outdated,
    Ahead,
    Unconstrained,
    Skipped,
    Error,
}

/// The text under which a status is displayed and serialized.
pub open spec fn status_label(s: ReportStatus) -> Seq<char> {
    match s {
        ReportStatus::Current => "current"@,
        ReportStatus::Outdated => "outdated"@,
        ReportStatus::Ahead => "ahead"@,
        ReportStatus::Unconstrained => "unconstrained"@,
        ReportStatus::Skipped => "skipped"@,
        ReportStatus::Error => "error"@,
    }
}

impl ReportStatus {
    /// The display text of the status.
    pub fn label(&self) -> (r: String)
        ensures
            r@ == status_label(*self),
    {
        match self {
            ReportStatus::Current => owned("current"),
            ReportStatus::Outdated => owned("outdated"),
            ReportStatus::Ahead => owned("ahead"),
            ReportStatus::Unconstrained => owned("unconstrained"),
            ReportStatus::Skipped => owned("skipped"),
            ReportStatus::Error => owned("error"),
        }
    }
}

#[derive(Clone, Debug)]
pub struct ReportRow {
    pub ecosystem: Ecosystem,
    pub manifest: String,
    pub group: String,
    pub package: String,
    pub current: String,
    pub latest: Option<String>,
    pub status: ReportStatus,
    pub message: Option<String>,
    /// Index of the manifest this row was built from.
    pub manifest_index: usize,
    /// Index of the dependency within that manifest.
    pub dependency_index: usize,
    /// The rewritten declaration, when one is safe to apply.
    pub replacement: Option<String>,
}

} // verus!
