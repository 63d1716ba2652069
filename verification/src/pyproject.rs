//! `pyproject.toml` and `Pipfile`: reading dependency declarations from a
//! TOML document and rewriting them in place.
//!
//! PEP 621, PEP 735 and Poetry store requirements in different shapes; all
//! are normalized into the shared dependency model.

use vstd::prelude::*;
use crate::model::{
    Dependency, DependencyLocation, DependencyModel, Ecosystem, LocationModel, RequirementSyntax,
    deps_view, strings_view,
};
use crate::text::{chars_of, chars_of_string, eq_ignore_case, lower, owned, push_all, string_of};
use crate::toml_doc::{
    TomlItem, TomlView, entry_get, entry_get_exec, path_item, path_item_exec, table_keys,
    toml_entry_views, toml_view, toml_views, lemma_toml_views, lemma_toml_entry_views,
};
use crate::version::{pep508_model, parse_pep508_chars, is_direct, msg_direct};
use crate::manifest::{opt_seq, updates_view};
use crate::toml_doc::{toml_document, toml_error_text};
use crate::manifest::{apply_edits_exec, edits_view, sort_edits_desc};
use crate::laws::fitting_edits_splice;
use crate::toml_render::{edits_fit_desc_exec, spec_render_toml, toml_edits_exec};
use crate::toml_doc::{toml_layout, toml_layout_parse};

verus! {

pub type Entries = Seq<(Seq<char>, TomlView)>;

/// Keys joined by `.`.
pub open spec fn join_dot(p: Seq<Seq<char>>) -> Seq<char>
    decreases p.len(),
{
    if p.len() == 0 {
        seq![]
    } else if p.len() == 1 {
        p[0]
    } else {
        join_dot(p.drop_last()) + seq!['.'] + p.last()
    }
}

pub fn join_path(path: &[String]) -> (r: Vec<char>)
    ensures
        r@ == join_dot(strings_view(path@)),
{
    let mut r: Vec<char> = Vec::new();
    let mut i: usize = 0;
    while i < path.len()
        invariant
            i <= path@.len(),
            r@ == join_dot(strings_view(path@.take(i as int))),
        decreases path.len() - i,
    {
        proof {
            assert(strings_view(path@.take(i + 1)).drop_last() =~= strings_view(
                path@.take(i as int),
            ));
        }
        if i > 0 {
            r.push('.');
        } else {
            assert(strings_view(path@.take(1)) =~= seq![path@[0]@]);
        }
        push_all(&mut r, chars_of_string(&path[i]).as_slice());
        i = i + 1;
    }
    assert(path@.take(path@.len() as int) =~= path@);
    r
}

pub fn clone_strings(v: &[String]) -> (r: Vec<String>)
    ensures
        strings_view(r@) == strings_view(v@),
{
    let mut r: Vec<String> = Vec::new();
    let mut i: usize = 0;
    while i < v.len()
        invariant
            i <= v@.len(),
            strings_view(r@) == strings_view(v@.take(i as int)),
        decreases v.len() - i,
    {
        let s = v[i].clone();
        let ghost old_r = r@;
        r.push(s);
        i = i + 1;
        proof {
            assert(strings_view(r@) =~= strings_view(old_r).push(s@));
            assert(strings_view(v@.take(i as int)) =~= strings_view(v@.take(i - 1)).push(
                v@[i - 1]@,
            ));
        }
    }
    assert(v@.take(v@.len() as int) =~= v@);
    r
}

fn lit(s: &str) -> (v: Vec<char>)
    ensures
        v@ == s@,
{
    chars_of(s)
}

// ---------------------------------------------------------------------------
// PEP 508 arrays
// ---------------------------------------------------------------------------

pub open spec fn msg_invalid_in(raw: Seq<char>, path: Seq<Seq<char>>) -> Seq<char> {
    "invalid PEP 508 dependency '"@ + raw + "' in "@ + join_dot(path)
}

/// The dependencies of the first `n` values of a PEP 508 array: each
/// string must be a PEP 508 requirement; other values are ignored.
pub open spec fn pep508_values(
    vals: Seq<TomlView>,
    path: Seq<Seq<char>>,
    group: Seq<char>,
    n: int,
) -> Result<Seq<DependencyModel>, Seq<char>>
    decreases n,
{
    if n <= 0 || n > vals.len() {
        Ok(seq![])
    } else {
        match pep508_values(vals, path, group, n - 1) {
            Err(e) => Err(e),
            Ok(prev) => match vals[n - 1] {
                TomlView::Str(raw) => match pep508_model(raw) {
                    None => Err(msg_invalid_in(raw, path)),
                    Some((name, s, e)) => Ok(
                        prev.push(
                            DependencyModel {
                                name,
                                lookup_name: name,
                                ecosystem: Ecosystem::Python,
                                group,
                                requirement: raw.subrange(s, e),
                                raw,
                                syntax: RequirementSyntax::Pep508,
                                location: LocationModel::TomlArray { path, index: n - 1 },
                                skip_reason: if is_direct(raw.subrange(s, e)) {
                                    Some(msg_direct())
                                } else {
                                    None
                                },
                            },
                        ),
                    ),
                },
                _ => Ok(prev),
            },
        }
    }
}

/// The dependencies of the PEP 508 array at `path`; none when there is no
/// array there.
pub open spec fn pep508_array_deps(top: Entries, path: Seq<Seq<char>>, group: Seq<char>) -> Result<
    Seq<DependencyModel>,
    Seq<char>,
> {
    match path_item(top, path) {
        Some(TomlView::Array(vals)) => pep508_values(vals, path, group, vals.len() as int),
        _ => Ok(seq![]),
    }
}

/// Appends the dependencies of the PEP 508 array at `path`.
pub fn collect_pep508_array(
    top: &[(String, TomlItem)],
    path: &[String],
    group: &[char],
    dependencies: &mut Vec<Dependency>,
) -> (r: Result<(), String>)
    ensures
        match pep508_array_deps(toml_entry_views(top@), strings_view(path@), group@) {
            Err(e) => r matches Err(m) && m@ == e,
            Ok(ds) => r is Ok && deps_view(final(dependencies)@) == deps_view(
                old(dependencies)@,
            ) + ds,
        },
{
    let ghost p = strings_view(path@);
    let ghost start = deps_view(dependencies@);
    let values = match path_item_exec(top, path) {
        Some(TomlItem::Array(values)) => values,
        _ => {
            assert(deps_view(dependencies@) =~= start + seq![]);
            return Ok(());
        },
    };
    let ghost vals = toml_views(values@);
    proof {
        lemma_toml_views(values@);
    }
    let mut k: usize = 0;
    while k < values.len()
        invariant
            k <= values@.len(),
            vals == toml_views(values@),
            vals.len() == values@.len(),
            forall|j: int| 0 <= j < values@.len() ==> #[trigger] vals[j] == toml_view(values@[j]),
            p == strings_view(path@),
            path_item(toml_entry_views(top@), p) == Some(TomlView::Array(vals)),
            pep508_values(vals, p, group@, k as int) matches Ok(ds) && deps_view(dependencies@)
                == start + ds,
        decreases values.len() - k,
    {
        let ghost prev = deps_view(dependencies@);
        match &values[k] {
            TomlItem::Str(raw) => {
                let raw_chars = chars_of_string(raw);
                match parse_pep508_chars(raw_chars.as_slice()) {
                    None => {
                        let mut m = lit("invalid PEP 508 dependency '");
                        push_all(&mut m, raw_chars.as_slice());
                        push_all(&mut m, lit("' in ").as_slice());
                        push_all(&mut m, join_path(path).as_slice());
                        proof {
                            assert(vals[k as int] == TomlView::Str(raw@));
                            assert(m@ == msg_invalid_in(raw@, p));
                            assert(pep508_values(vals, p, group@, k + 1) == Err::<
                                Seq<DependencyModel>,
                                Seq<char>,
                            >(msg_invalid_in(raw@, p)));
                            lemma_pep508_values_err(vals, p, group@, k + 1, values@.len() as int);
                        }
                        return Err(string_of(m.as_slice()));
                    },
                    Some((name, s, e)) => {
                        let spec = crate::text::slice_of(raw_chars.as_slice(), s, e);
                        let direct = spec.len() > 0 && spec[0] == '@';
                        let d = Dependency {
                            name: string_of(name.as_slice()),
                            lookup_name: string_of(name.as_slice()),
                            ecosystem: Ecosystem::Python,
                            group: string_of(group),
                            requirement: string_of(spec.as_slice()),
                            raw: raw.clone(),
                            syntax: RequirementSyntax::Pep508,
                            location: DependencyLocation::TomlArray {
                                path: clone_strings(path),
                                index: k,
                            },
                            skip_reason: if direct {
                                Some(owned("direct URL dependencies are not rewritten"))
                            } else {
                                None
                            },
                        };
                        dependencies.push(d);
                        proof {
                            assert(deps_view(dependencies@) =~= prev.push(d@));
                        }
                    },
                }
            },
            _ => {},
        }
        k = k + 1;
    }
    Ok(())
}

proof fn lemma_pep508_values_err(
    vals: Seq<TomlView>,
    path: Seq<Seq<char>>,
    group: Seq<char>,
    k: int,
    n: int,
)
    requires
        0 < k <= n <= vals.len(),
        pep508_values(vals, path, group, k) is Err,
    ensures
        pep508_values(vals, path, group, n) == pep508_values(vals, path, group, k),
    decreases n - k,
{
    if k < n {
        lemma_pep508_values_err(vals, path, group, k, n - 1);
    }
}

// ---------------------------------------------------------------------------
// Poetry and Pipfile tables
// ---------------------------------------------------------------------------

pub open spec fn msg_source() -> Seq<char> {
    "path, URL, and git dependencies are not rewritten"@
}

/// A table entry names a path, git, URL or file source.
pub open spec fn has_source(es: Entries) -> bool {
    entry_get(es, "path"@) is Some || entry_get(es, "git"@) is Some || entry_get(es, "url"@)
        is Some || entry_get(es, "file"@) is Some
}

/// The `version` string of a detailed declaration, or `*` without one.
pub open spec fn version_field(es: Entries) -> Seq<char> {
    match entry_get(es, "version"@) {
        Some(TomlView::Str(v)) => v,
        _ => "*"@,
    }
}

/// The dependency a table entry declares: a version string, or a detailed
/// table whose `version` is read and whose path/git/URL/file source makes it
/// skipped; the `python` entry (any case) and other values declare none.
pub open spec fn python_entry(
    name: Seq<char>,
    item: TomlView,
    path: Seq<Seq<char>>,
    group: Seq<char>,
) -> Option<DependencyModel> {
    if lower(name) == lower("python"@) {
        None
    } else {
        let detailed = |es: Entries|
            Some(
                DependencyModel {
                    name,
                    lookup_name: name,
                    ecosystem: Ecosystem::Python,
                    group,
                    requirement: version_field(es),
                    raw: version_field(es),
                    syntax: RequirementSyntax::PythonConstraint,
                    location: LocationModel::TomlKey { path, key: name, field: Some("version"@) },
                    skip_reason: if has_source(es) {
                        Some(msg_source())
                    } else {
                        None
                    },
                },
            );
        match item {
            TomlView::Str(v) => Some(
                DependencyModel {
                    name,
                    lookup_name: name,
                    ecosystem: Ecosystem::Python,
                    group,
                    requirement: v,
                    raw: v,
                    syntax: RequirementSyntax::PythonConstraint,
                    location: LocationModel::TomlKey { path, key: name, field: None },
                    skip_reason: None,
                },
            ),
            TomlView::Inline(es) => detailed(es),
            TomlView::Table(es) => detailed(es),
            _ => None,
        }
    }
}

/// The dependencies of the first `n` entries of a table.
pub open spec fn python_entries(es: Entries, path: Seq<Seq<char>>, group: Seq<char>, n: int) -> Seq<
    DependencyModel,
>
    decreases n,
{
    if n <= 0 || n > es.len() {
        seq![]
    } else {
        python_entries(es, path, group, n - 1) + opt_seq(
            python_entry(es[n - 1].0, es[n - 1].1, path, group),
        )
    }
}

/// The dependencies of the table at `path`; none when there is no table.
pub open spec fn python_map_deps(top: Entries, path: Seq<Seq<char>>, group: Seq<char>) -> Seq<
    DependencyModel,
> {
    match path_item(top, path) {
        Some(TomlView::Table(es)) => python_entries(es, path, group, es.len() as int),
        Some(TomlView::Inline(es)) => python_entries(es, path, group, es.len() as int),
        _ => seq![],
    }
}

fn entry_is_present(es: &[(String, TomlItem)], key: &str) -> (r: bool)
    ensures
        r == (entry_get(toml_entry_views(es@), key@) is Some),
{
    let k = chars_of(key);
    entry_get_exec(es, k.as_slice()).is_some()
}

fn python_entry_exec(
    name: &String,
    item: &TomlItem,
    path: &[String],
    group: &[char],
) -> (r: Option<Dependency>)
    ensures
        match r {
            Some(d) => python_entry(name@, toml_view(*item), strings_view(path@), group@) == Some(
                d@,
            ),
            None => python_entry(name@, toml_view(*item), strings_view(path@), group@) is None,
        },
{
    let n = chars_of_string(name);
    if eq_ignore_case(n.as_slice(), lit("python").as_slice()) {
        return None;
    }
    let (requirement, field, skip_reason) = match item {
        TomlItem::Str(v) => (v.clone(), None, None),
        TomlItem::Inline(es) | TomlItem::Table(es) => {
            let version = match entry_get_exec(es.as_slice(), lit("version").as_slice()) {
                Some(TomlItem::Str(v)) => v.clone(),
                _ => owned("*"),
            };
            let source = entry_is_present(es.as_slice(), "path") || entry_is_present(
                es.as_slice(),
                "git",
            ) || entry_is_present(es.as_slice(), "url") || entry_is_present(es.as_slice(), "file");
            let skip = if source {
                Some(owned("path, URL, and git dependencies are not rewritten"))
            } else {
                None
            };
            (version, Some(owned("version")), skip)
        },
        _ => {
            return None;
        },
    };
    Some(
        Dependency {
            name: name.clone(),
            lookup_name: name.clone(),
            ecosystem: Ecosystem::Python,
            group: string_of(group),
            requirement: requirement.clone(),
            raw: requirement,
            syntax: RequirementSyntax::PythonConstraint,
            location: DependencyLocation::TomlKey {
                path: clone_strings(path),
                key: name.clone(),
                field,
            },
            skip_reason,
        },
    )
}

/// Appends the dependencies of the table at `path`.
pub fn collect_python_map(
    top: &[(String, TomlItem)],
    path: &[String],
    group: &[char],
    dependencies: &mut Vec<Dependency>,
)
    ensures
        deps_view(final(dependencies)@) == deps_view(old(dependencies)@) + python_map_deps(
            toml_entry_views(top@),
            strings_view(path@),
            group@,
        ),
{
    let ghost start = deps_view(dependencies@);
    let entries = match path_item_exec(top, path) {
        Some(TomlItem::Table(es)) => es,
        Some(TomlItem::Inline(es)) => es,
        _ => {
            assert(deps_view(dependencies@) =~= start + seq![]);
            return ;
        },
    };
    let ghost es = toml_entry_views(entries@);
    proof {
        lemma_toml_entry_views(entries@);
    }
    let mut k: usize = 0;
    while k < entries.len()
        invariant
            k <= entries@.len(),
            es == toml_entry_views(entries@),
            es.len() == entries@.len(),
            forall|j: int|
                0 <= j < entries@.len() ==> #[trigger] es[j] == (entries@[j].0@, toml_view(
                    entries@[j].1,
                )),
            deps_view(dependencies@) == start + python_entries(
                es,
                strings_view(path@),
                group@,
                k as int,
            ),
        decreases entries.len() - k,
    {
        let ghost prev = deps_view(dependencies@);
        match python_entry_exec(&entries[k].0, &entries[k].1, path, group) {
            Some(d) => {
                dependencies.push(d);
                proof {
                    assert(deps_view(dependencies@) =~= prev + seq![d@]);
                }
            },
            None => {
                assert(deps_view(dependencies@) =~= prev + seq![]);
            },
        }
        k = k + 1;
    }
}

// ---------------------------------------------------------------------------
// Whole documents
// ---------------------------------------------------------------------------

pub open spec fn p_project_deps() -> Seq<Seq<char>> {
    seq!["project"@, "dependencies"@]
}

pub open spec fn p_optional() -> Seq<Seq<char>> {
    seq!["project"@, "optional-dependencies"@]
}

pub open spec fn p_groups() -> Seq<Seq<char>> {
    seq!["dependency-groups"@]
}

pub open spec fn p_poetry_deps() -> Seq<Seq<char>> {
    seq!["tool"@, "poetry"@, "dependencies"@]
}

pub open spec fn p_poetry_dev() -> Seq<Seq<char>> {
    seq!["tool"@, "poetry"@, "dev-dependencies"@]
}

pub open spec fn p_poetry_group() -> Seq<Seq<char>> {
    seq!["tool"@, "poetry"@, "group"@]
}

/// The PEP 508 arrays of every group under `base` (a table of arrays),
/// grouped as `prefix` + the group's key.
pub open spec fn pep508_groups(
    top: Entries,
    base: Seq<Seq<char>>,
    prefix: Seq<char>,
    keys: Seq<Seq<char>>,
) -> Result<Seq<DependencyModel>, Seq<char>>
    decreases keys.len(),
{
    if keys.len() == 0 {
        Ok(seq![])
    } else {
        match pep508_groups(top, base, prefix, keys.drop_last()) {
            Err(e) => Err(e),
            Ok(prev) => match pep508_array_deps(top, base.push(keys.last()), prefix + keys.last()) {
                Err(e) => Err(e),
                Ok(d) => Ok(prev + d),
            },
        }
    }
}

/// The dependency tables of every Poetry group.
pub open spec fn poetry_groups(top: Entries, keys: Seq<Seq<char>>) -> Seq<DependencyModel>
    decreases keys.len(),
{
    if keys.len() == 0 {
        seq![]
    } else {
        poetry_groups(top, keys.drop_last()) + python_map_deps(
            top,
            seq!["tool"@, "poetry"@, "group"@, keys.last(), "dependencies"@],
            "tool.poetry.group."@ + keys.last() + ".dependencies"@,
        )
    }
}

/// The dependencies of a `pyproject.toml` document: `[project]`
/// dependencies, optional dependencies, dependency groups, then Poetry
/// dependencies, dev-dependencies and groups.
pub open spec fn spec_pyproject(top: Entries) -> Result<Seq<DependencyModel>, Seq<char>> {
    match pep508_array_deps(top, p_project_deps(), "project.dependencies"@) {
        Err(e) => Err(e),
        Ok(a) => match pep508_groups(
            top,
            p_optional(),
            "project.optional-dependencies."@,
            table_keys(path_item(top, p_optional())),
        ) {
            Err(e) => Err(e),
            Ok(b) => match pep508_groups(
                top,
                p_groups(),
                "dependency-groups."@,
                table_keys(path_item(top, p_groups())),
            ) {
                Err(e) => Err(e),
                Ok(c) => Ok(
                    a + b + c + python_map_deps(top, p_poetry_deps(), "tool.poetry.dependencies"@)
                        + python_map_deps(top, p_poetry_dev(), "tool.poetry.dev-dependencies"@)
                        + poetry_groups(top, table_keys(path_item(top, p_poetry_group()))),
                ),
            },
        },
    }
}

/// The dependencies of a `Pipfile` document: `[packages]`, then
/// `[dev-packages]`.
pub open spec fn spec_pipfile(top: Entries) -> Seq<DependencyModel> {
    python_map_deps(top, seq!["packages"@], "packages"@) + python_map_deps(
        top,
        seq!["dev-packages"@],
        "dev-packages"@,
    )
}

fn owned_path(parts: &[&str]) -> (r: Vec<String>)
    ensures
        strings_view(r@) == parts@.map_values(|s: &str| s@),
{
    let mut r: Vec<String> = Vec::new();
    let mut i: usize = 0;
    while i < parts.len()
        invariant
            i <= parts@.len(),
            strings_view(r@) == parts@.take(i as int).map_values(|s: &str| s@),
        decreases parts.len() - i,
    {
        let s = owned(parts[i]);
        let ghost old_r = r@;
        r.push(s);
        i = i + 1;
        proof {
            assert(strings_view(r@) =~= strings_view(old_r).push(s@));
            assert(parts@.take(i as int).map_values(|s: &str| s@) =~= parts@.take(i - 1).map_values(
                |s: &str| s@,
            ).push(parts@[i - 1]@));
        }
    }
    assert(parts@.take(parts@.len() as int) =~= parts@);
    r
}

/// The keys of the table-like item at `path`.
fn keys_at(top: &[(String, TomlItem)], path: &[String]) -> (r: Vec<String>)
    ensures
        strings_view(r@) == table_keys(path_item(toml_entry_views(top@), strings_view(path@))),
{
    let mut keys: Vec<String> = Vec::new();
    let entries = match path_item_exec(top, path) {
        Some(TomlItem::Table(es)) => es,
        Some(TomlItem::Inline(es)) => es,
        _ => {
            assert(strings_view(keys@) =~= Seq::<Seq<char>>::empty());
            return keys;
        },
    };
    proof {
        lemma_toml_entry_views(entries@);
    }
    let mut k: usize = 0;
    while k < entries.len()
        invariant
            k <= entries@.len(),
            strings_view(keys@) == toml_entry_views(entries@).take(k as int).map_values(
                |e: (Seq<char>, TomlView)| e.0,
            ),
            toml_entry_views(entries@).len() == entries@.len(),
            forall|j: int|
                0 <= j < entries@.len() ==> #[trigger] toml_entry_views(entries@)[j] == (
                entries@[j].0@, toml_view(entries@[j].1)),
        decreases entries.len() - k,
    {
        let s = entries[k].0.clone();
        let ghost old_keys = keys@;
        keys.push(s);
        k = k + 1;
        proof {
            assert(strings_view(keys@) =~= strings_view(old_keys).push(s@));
            assert(toml_entry_views(entries@).take(k as int).map_values(
                |e: (Seq<char>, TomlView)| e.0,
            ) =~= toml_entry_views(entries@).take(k - 1).map_values(|e: (Seq<char>, TomlView)| e.0).push(
                entries@[k - 1].0@,
            ));
        }
    }
    assert(toml_entry_views(entries@).take(entries@.len() as int) =~= toml_entry_views(entries@));
    keys
}

fn collect_pep508_groups(
    top: &[(String, TomlItem)],
    base: &[String],
    prefix: &[char],
    dependencies: &mut Vec<Dependency>,
) -> (r: Result<(), String>)
    ensures
        match pep508_groups(
            toml_entry_views(top@),
            strings_view(base@),
            prefix@,
            table_keys(path_item(toml_entry_views(top@), strings_view(base@))),
        ) {
            Err(e) => r matches Err(m) && m@ == e,
            Ok(ds) => r is Ok && deps_view(final(dependencies)@) == deps_view(
                old(dependencies)@,
            ) + ds,
        },
{
    let ghost start = deps_view(dependencies@);
    let ghost t = toml_entry_views(top@);
    let ghost b = strings_view(base@);
    let keys = keys_at(top, base);
    let ghost ks = strings_view(keys@);
    let mut k: usize = 0;
    proof {
        assert(ks.take(0) =~= Seq::<Seq<char>>::empty());
        assert(deps_view(dependencies@) =~= start + seq![]);
    }
    while k < keys.len()
        invariant
            k <= keys@.len(),
            ks == strings_view(keys@),
            t == toml_entry_views(top@),
            b == strings_view(base@),
            ks == table_keys(path_item(t, b)),
            pep508_groups(t, b, prefix@, ks.take(k as int)) matches Ok(ds) && deps_view(
                dependencies@,
            ) == start + ds,
        decreases keys.len() - k,
    {
        let mut path = clone_strings(base);
        path.push(keys[k].clone());
        let mut group = crate::text::slice_of(prefix, 0, prefix.len());
        push_all(&mut group, chars_of_string(&keys[k]).as_slice());
        let ghost prev = deps_view(dependencies@);
        proof {
            assert(ks.take(k + 1).drop_last() =~= ks.take(k as int));
            assert(ks.take(k + 1).last() == keys@[k as int]@);
            assert(strings_view(path@) =~= b.push(keys@[k as int]@));
            assert(prefix@.take(prefix@.len() as int) =~= prefix@);
        }
        match collect_pep508_array(top, path.as_slice(), group.as_slice(), dependencies) {
            Err(m) => {
                proof {
                    assert(group@ == prefix@ + keys@[k as int]@);
                    assert(pep508_array_deps(t, b.push(keys@[k as int]@), prefix@ + keys@[
                        k as int
                    ]@) == Err::<Seq<DependencyModel>, Seq<char>>(m@));
                    assert(pep508_groups(t, b, prefix@, ks.take(k + 1)) == Err::<
                        Seq<DependencyModel>,
                        Seq<char>,
                    >(m@));
                    lemma_pep508_groups_err(t, b, prefix@, ks, k + 1);
                }
                return Err(m);
            },
            Ok(()) => {},
        }
        k = k + 1;
    }
    proof {
        assert(ks.take(keys@.len() as int) =~= ks);
    }
    Ok(())
}

proof fn lemma_pep508_groups_err(
    top: Entries,
    base: Seq<Seq<char>>,
    prefix: Seq<char>,
    keys: Seq<Seq<char>>,
    k: int,
)
    requires
        0 < k <= keys.len(),
        pep508_groups(top, base, prefix, keys.take(k)) is Err,
    ensures
        pep508_groups(top, base, prefix, keys) == pep508_groups(top, base, prefix, keys.take(k)),
    decreases keys.len() - k,
{
    if k < keys.len() {
        assert(keys.take(k + 1).drop_last() =~= keys.take(k));
        lemma_pep508_groups_err(top, base, prefix, keys, k + 1);
    } else {
        assert(keys.take(k) =~= keys);
    }
}

fn collect_poetry_groups(top: &[(String, TomlItem)], dependencies: &mut Vec<Dependency>)
    ensures
        deps_view(final(dependencies)@) == deps_view(old(dependencies)@) + poetry_groups(
            toml_entry_views(top@),
            table_keys(path_item(toml_entry_views(top@), p_poetry_group())),
        ),
{
    let base = owned_path(&["tool", "poetry", "group"]);
    proof {
        assert(strings_view(base@) =~= p_poetry_group());
    }
    let keys = keys_at(top, base.as_slice());
    let ghost ks = strings_view(keys@);
    let ghost start = deps_view(dependencies@);
    let mut k: usize = 0;
    proof {
        assert(ks.take(0) =~= Seq::<Seq<char>>::empty());
        assert(deps_view(dependencies@) =~= start + seq![]);
    }
    while k < keys.len()
        invariant
            k <= keys@.len(),
            ks == strings_view(keys@),
            deps_view(dependencies@) == start + poetry_groups(
                toml_entry_views(top@),
                ks.take(k as int),
            ),
        decreases keys.len() - k,
    {
        let mut path = owned_path(&["tool", "poetry", "group"]);
        proof {
            assert(strings_view(path@) =~= p_poetry_group());
        }
        path.push(keys[k].clone());
        path.push(owned("dependencies"));
        let mut group = lit("tool.poetry.group.");
        push_all(&mut group, chars_of_string(&keys[k]).as_slice());
        push_all(&mut group, lit(".dependencies").as_slice());
        proof {
            assert(ks.take(k + 1).drop_last() =~= ks.take(k as int));
            assert(ks.take(k + 1).last() == keys@[k as int]@);
            assert(strings_view(path@) =~= seq![
                "tool"@,
                "poetry"@,
                "group"@,
                keys@[k as int]@,
                "dependencies"@,
            ]);
        }
        collect_python_map(top, path.as_slice(), group.as_slice(), dependencies);
        k = k + 1;
    }
    proof {
        assert(ks.take(keys@.len() as int) =~= ks);
    }
}

/// The dependencies of a parsed `pyproject.toml`.
pub fn pyproject_dependencies(top: &[(String, TomlItem)]) -> (r: Result<Vec<Dependency>, String>)
    ensures
        match spec_pyproject(toml_entry_views(top@)) {
            Err(e) => r matches Err(m) && m@ == e,
            Ok(ds) => r matches Ok(v) && deps_view(v@) == ds,
        },
{
    let mut dependencies: Vec<Dependency> = Vec::new();
    let project = owned_path(&["project", "dependencies"]);
    let optional = owned_path(&["project", "optional-dependencies"]);
    let groups = owned_path(&["dependency-groups"]);
    let poetry = owned_path(&["tool", "poetry", "dependencies"]);
    let poetry_dev = owned_path(&["tool", "poetry", "dev-dependencies"]);
    proof {
        assert(strings_view(project@) =~= p_project_deps());
        assert(strings_view(optional@) =~= p_optional());
        assert(strings_view(groups@) =~= p_groups());
        assert(strings_view(poetry@) =~= p_poetry_deps());
        assert(strings_view(poetry_dev@) =~= p_poetry_dev());
        assert(deps_view(dependencies@) =~= Seq::<DependencyModel>::empty());
    }
    let ghost s0 = deps_view(dependencies@);
    match collect_pep508_array(
        top,
        project.as_slice(),
        lit("project.dependencies").as_slice(),
        &mut dependencies,
    ) {
        Err(m) => {
            return Err(m);
        },
        Ok(()) => {},
    }
    let ghost s1 = deps_view(dependencies@);
    match collect_pep508_groups(
        top,
        optional.as_slice(),
        lit("project.optional-dependencies.").as_slice(),
        &mut dependencies,
    ) {
        Err(m) => {
            return Err(m);
        },
        Ok(()) => {},
    }
    let ghost s2 = deps_view(dependencies@);
    match collect_pep508_groups(
        top,
        groups.as_slice(),
        lit("dependency-groups.").as_slice(),
        &mut dependencies,
    ) {
        Err(m) => {
            return Err(m);
        },
        Ok(()) => {},
    }
    let ghost s3 = deps_view(dependencies@);
    collect_python_map(
        top,
        poetry.as_slice(),
        lit("tool.poetry.dependencies").as_slice(),
        &mut dependencies,
    );
    collect_python_map(
        top,
        poetry_dev.as_slice(),
        lit("tool.poetry.dev-dependencies").as_slice(),
        &mut dependencies,
    );
    collect_poetry_groups(top, &mut dependencies);
    proof {
        assert(s0 + (s1.skip(0)) =~= s1);
    }
    Ok(dependencies)
}

/// The dependencies of a parsed `Pipfile`.
pub fn pipfile_dependencies(top: &[(String, TomlItem)]) -> (r: Vec<Dependency>)
    ensures
        deps_view(r@) == spec_pipfile(toml_entry_views(top@)),
{
    let mut dependencies: Vec<Dependency> = Vec::new();
    let packages = owned_path(&["packages"]);
    let dev = owned_path(&["dev-packages"]);
    proof {
        assert(strings_view(packages@) =~= seq!["packages"@]);
        assert(strings_view(dev@) =~= seq!["dev-packages"@]);
        assert(deps_view(dependencies@) =~= Seq::<DependencyModel>::empty());
    }
    collect_python_map(top, packages.as_slice(), lit("packages").as_slice(), &mut dependencies);
    collect_python_map(top, dev.as_slice(), lit("dev-packages").as_slice(), &mut dependencies);
    proof {
        assert(Seq::<DependencyModel>::empty() + python_map_deps(
            toml_entry_views(top@),
            seq!["packages"@],
            "packages"@,
        ) =~= python_map_deps(toml_entry_views(top@), seq!["packages"@], "packages"@));
    }
    dependencies
}

pub open spec fn msg_failed_parse(path: Seq<char>) -> Seq<char> {
    "failed to parse "@ + path + ": "@
}

/// Parses `pyproject.toml` text (`path` names it in errors).
pub fn parse_pyproject(content: &str, path: &str) -> (r: Result<Vec<Dependency>, String>)
    ensures
        match crate::toml_doc::toml_document(content@) {
            None => r matches Err(m) && m@.len() >= msg_failed_parse(path@).len() && m@.take(
                msg_failed_parse(path@).len() as int,
            ) == msg_failed_parse(path@),
            Some(top) => match spec_pyproject(top) {
                Err(e) => r matches Err(m) && m@ == e,
                Ok(ds) => r matches Ok(v) && deps_view(v@) == ds,
            },
        },
{
    match crate::toml_doc::toml_parse(content) {
        Err(e) => Err(failed_to_parse(path, crate::toml_doc::toml_error_text(&e))),
        Ok(top) => pyproject_dependencies(top.as_slice()),
    }
}

/// Parses `Pipfile` text (`path` names it in errors).
pub fn parse_pipfile(content: &str, path: &str) -> (r: Result<Vec<Dependency>, String>)
    ensures
        match crate::toml_doc::toml_document(content@) {
            None => r matches Err(m) && m@.len() >= msg_failed_parse(path@).len() && m@.take(
                msg_failed_parse(path@).len() as int,
            ) == msg_failed_parse(path@),
            Some(top) => r matches Ok(v) && deps_view(v@) == spec_pipfile(top),
        },
{
    match crate::toml_doc::toml_parse(content) {
        Err(e) => Err(failed_to_parse(path, crate::toml_doc::toml_error_text(&e))),
        Ok(top) => Ok(pipfile_dependencies(top.as_slice())),
    }
}

/// `failed to parse <path>: <cause>`.
pub fn failed_to_parse(path: &str, cause: String) -> (r: String)
    ensures
        r@ == msg_failed_parse(path@) + cause@,
{
    let mut m = lit("failed to parse ");
    push_all(&mut m, chars_of(path).as_slice());
    push_all(&mut m, lit(": ").as_slice());
    push_all(&mut m, chars_of_string(&cause).as_slice());
    string_of(m.as_slice())
}

// ---------------------------------------------------------------------------
// Rendering updates
// ---------------------------------------------------------------------------

pub open spec fn msg_invalid_toml_update() -> Seq<char> {
    "invalid TOML dependency update"@
}

pub open spec fn msg_invalid_toml_location() -> Seq<char> {
    "invalid TOML dependency location"@
}

/// A location inside a TOML document.
pub open spec fn is_toml_location(l: LocationModel) -> bool {
    l is TomlArray || l is TomlKey
}

/// The error for the first update that names no dependency, or a dependency
/// whose location is not inside a TOML document; none when all are usable.
pub open spec fn toml_update_error(
    deps: Seq<DependencyModel>,
    updates: Seq<(int, Seq<char>)>,
) -> Option<Seq<char>>
    decreases updates.len(),
{
    if updates.len() == 0 {
        None
    } else {
        match toml_update_error(deps, updates.drop_last()) {
            Some(e) => Some(e),
            None => {
                let index = updates.last().0;
                if index < 0 || index >= deps.len() {
                    Some(msg_invalid_toml_update())
                } else if is_toml_location(deps[index].location) {
                    None
                } else {
                    Some(msg_invalid_toml_location())
                }
            },
        }
    }
}

proof fn lemma_toml_update_error_prefix(
    deps: Seq<DependencyModel>,
    u: Seq<(int, Seq<char>)>,
    k: int,
)
    requires
        0 <= k <= u.len(),
        toml_update_error(deps, u.take(k)) is Some,
    ensures
        toml_update_error(deps, u) == toml_update_error(deps, u.take(k)),
    decreases u.len() - k,
{
    if k < u.len() {
        assert(u.take(k + 1).drop_last() =~= u.take(k));
        lemma_toml_update_error_prefix(deps, u, k + 1);
    } else {
        assert(u.take(k) =~= u);
    }
}

/// Checks that every update names a dependency declared in a TOML document.
fn check_toml_updates(dependencies: &[Dependency], updates: &[(usize, String)]) -> (r: Result<
    (),
    String,
>)
    ensures
        match toml_update_error(deps_view(dependencies@), updates_view(updates@)) {
            Some(e) => r matches Err(m) && m@ == e,
            None => r is Ok,
        },
{
    let ghost d = deps_view(dependencies@);
    let ghost u = updates_view(updates@);
    let mut k: usize = 0;
    while k < updates.len()
        invariant
            k <= updates@.len(),
            d == deps_view(dependencies@),
            u == updates_view(updates@),
            toml_update_error(d, u.take(k as int)) is None,
        decreases updates.len() - k,
    {
        proof {
            assert(u.take(k + 1).drop_last() =~= u.take(k as int));
            assert(u.take(k + 1).last() == u[k as int]);
        }
        let index = updates[k].0;
        if index >= dependencies.len() {
            proof {
                lemma_toml_update_error_prefix(d, u, k + 1);
            }
            return Err(owned("invalid TOML dependency update"));
        }
        match &dependencies[index].location {
            DependencyLocation::TomlArray { .. } => {},
            DependencyLocation::TomlKey { .. } => {},
            _ => {
                proof {
                    lemma_toml_update_error_prefix(d, u, k + 1);
                }
                return Err(owned("invalid TOML dependency location"));
            },
        }
        k = k + 1;
    }
    proof {
        assert(u.take(updates@.len() as int) =~= u);
    }
    Ok(())
}

/// `could not find <what>`.
/// Renders a `pyproject.toml` or `Pipfile` with the requested replacements
/// written over the values at their dependencies' locations, each as
/// `toml_edit` writes a new string value; all other text, formatting and
/// comments are kept as they are. A syntax error, an update naming no
/// dependency or a dependency outside a TOML document, a location the
/// document lacks, and updates of overlapping values are refused, and
/// nothing is written. Updates are applied in the order given; an index
/// given twice names the same value twice and is refused as an overlap.
pub fn render_toml(content: &str, dependencies: &[Dependency], updates: &[(usize, String)]) -> (r:
    Result<String, String>)
    ensures
        match toml_layout(content@) {
            None => r is Err,
            Some(top) => match spec_render_toml(
                content@,
                top,
                deps_view(dependencies@),
                updates_view(updates@),
            ) {
                Ok(t) => r matches Ok(s) && s@ == t,
                Err(e) => r matches Err(m) && m@ == e,
            },
        },
{
    let top = match toml_layout_parse(content) {
        Err(e) => {
            return Err(toml_error_text(&e));
        },
        Ok(top) => top,
    };
    match check_toml_updates(dependencies, updates) {
        Err(m) => {
            return Err(m);
        },
        Ok(()) => {},
    }
    let edits = match toml_edits_exec(top.as_slice(), dependencies, updates) {
        Err(m) => {
            return Err(string_of(m.as_slice()));
        },
        Ok(edits) => edits,
    };
    let sorted = sort_edits_desc(edits);
    let text = chars_of(content);
    if !edits_fit_desc_exec(text.as_slice(), sorted.as_slice()) {
        return Err(owned("TOML values to update overlap"));
    }
    proof {
        fitting_edits_splice(text@, edits_view(sorted@));
    }
    match apply_edits_exec(text, sorted.as_slice()) {
        Some(t) => Ok(string_of(t.as_slice())),
        None => Err(owned("TOML values to update overlap")),
    }
}

} // verus!
