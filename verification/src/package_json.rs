//! `package.json`: reading the four dependency sections and rewriting
//! requirement strings.
//!
//! `serde_json` parses and prints documents. A parsed document is converted
//! into a `JsonValue`, which holds objects as their members in the order
//! `serde_json` keeps them; updates are made on that value, which is then
//! printed again with the indentation the file used.

use vstd::prelude::*;
use crate::model::{
    Dependency, DependencyLocation, DependencyModel, Ecosystem, LocationModel, RequirementSyntax,
    deps_view,
};
use crate::manifest::{detect_json_indent, indent_from, updates_view};
use crate::pyproject::{failed_to_parse, msg_failed_parse};
use crate::text::{
    chars_of, chars_of_string, contains_exec, contains_seq, ends_with, eq_chars, owned, push_all,
    string_of,
};
use crate::version::{node_registry_target, spec_node_registry_target};

verus! {

#[verifier::external_type_specification]
#[verifier::external_body]
pub struct ExJsonValue(serde_json::Value);

#[verifier::external_type_specification]
#[verifier::external_body]
pub struct ExJsonNumber(serde_json::Number);

#[verifier::external_type_specification]
#[verifier::external_body]
pub struct ExJsonError(serde_json::Error);

/// A JSON value. Numbers are carried through unchanged.
#[derive(Debug)]
pub enum JsonValue {
    Null,
    Bool(bool),
    Number(serde_json::Number),
    Str(String),
    Array(Vec<JsonValue>),
    /// An object's members in order.
    Object(Vec<(String, JsonValue)>),
}

/// The mathematical content of a `JsonValue`.
pub enum JsonView {
    Null,
    Bool(bool),
    Number(serde_json::Number),
    Str(Seq<char>),
    Array(Seq<JsonView>),
    Object(Seq<(Seq<char>, JsonView)>),
}

pub open spec fn json_view(v: JsonValue) -> JsonView
    decreases v, 0nat,
{
    match v {
        JsonValue::Null => JsonView::Null,
        JsonValue::Bool(b) => JsonView::Bool(b),
        JsonValue::Number(n) => JsonView::Number(n),
        JsonValue::Str(s) => JsonView::Str(s@),
        JsonValue::Array(a) => JsonView::Array(json_views(a@)),
        JsonValue::Object(m) => JsonView::Object(json_member_views(m@)),
    }
}

pub open spec fn json_views(s: Seq<JsonValue>) -> Seq<JsonView>
    decreases s, s.len(),
{
    if s.len() == 0 {
        seq![]
    } else {
        proof {
            assert(decreases_to!(s => s[s.len() - 1]));
        }
        json_views(s.drop_last()).push(json_view(s[s.len() - 1]))
    }
}

pub open spec fn json_member_views(s: Seq<(String, JsonValue)>) -> Seq<(Seq<char>, JsonView)>
    decreases s, s.len(),
{
    if s.len() == 0 {
        seq![]
    } else {
        proof {
            assert(decreases_to!(s => s[s.len() - 1]));
        }
        json_member_views(s.drop_last()).push((s[s.len() - 1].0@, json_view(s[s.len() - 1].1)))
    }
}

pub proof fn lemma_json_member_views(s: Seq<(String, JsonValue)>)
    ensures
        json_member_views(s).len() == s.len(),
        forall|i: int|
            0 <= i < s.len() ==> #[trigger] json_member_views(s)[i] == (s[i].0@, json_view(s[i].1)),
    decreases s.len(),
{
    if s.len() > 0 {
        lemma_json_member_views(s.drop_last());
        assert forall|i: int| 0 <= i < s.len() implies #[trigger] json_member_views(s)[i] == (
        s[i].0@, json_view(s[i].1)) by {
            if i < s.len() - 1 {
                assert(s.drop_last()[i] == s[i]);
            }
        }
    }
}

/// The value of the first member named `k`.
pub open spec fn member(ms: Seq<(Seq<char>, JsonView)>, k: Seq<char>) -> Option<JsonView>
    decreases ms.len(),
{
    if ms.len() == 0 {
        None
    } else if ms[0].0 == k {
        Some(ms[0].1)
    } else {
        member(ms.drop_first(), k)
    }
}

/// `Value::get(key)`: the member of an object; none for other values.
pub open spec fn json_get(v: JsonView, k: Seq<char>) -> Option<JsonView> {
    match v {
        JsonView::Object(ms) => member(ms, k),
        _ => None,
    }
}

/// The members with the first one named `k` given the value `x`.
pub open spec fn set_member(ms: Seq<(Seq<char>, JsonView)>, k: Seq<char>, x: JsonView) -> Seq<
    (Seq<char>, JsonView),
>
    decreases ms.len(),
{
    if ms.len() == 0 {
        ms
    } else if ms[0].0 == k {
        seq![(k, x)] + ms.drop_first()
    } else {
        seq![ms[0]] + set_member(ms.drop_first(), k, x)
    }
}

// ---------------------------------------------------------------------------
// serde_json
// ---------------------------------------------------------------------------

/// Converts a parsed value into its model, one for one; the conversion
/// `json_parse` applies to its result.
#[verifier::external_body]
fn json_value_model(value: &serde_json::Value) -> JsonValue {
    match value {
        serde_json::Value::Null => JsonValue::Null,
        serde_json::Value::Bool(b) => JsonValue::Bool(*b),
        serde_json::Value::Number(n) => JsonValue::Number(n.clone()),
        serde_json::Value::String(s) => JsonValue::Str(s.clone()),
        serde_json::Value::Array(a) => JsonValue::Array(a.iter().map(json_value_model).collect()),
        serde_json::Value::Object(m) => JsonValue::Object(
            m.iter().map(|(k, v)| (k.clone(), json_value_model(v))).collect(),
        ),
    }
}

/// Converts a model back into a `serde_json` value, one for one; the
/// conversion `json_pretty` applies to its argument.
#[verifier::external_body]
fn json_value_of(value: &JsonValue) -> serde_json::Value {
    match value {
        JsonValue::Null => serde_json::Value::Null,
        JsonValue::Bool(b) => serde_json::Value::Bool(*b),
        JsonValue::Number(n) => serde_json::Value::Number(n.clone()),
        JsonValue::Str(s) => serde_json::Value::String(s.clone()),
        JsonValue::Array(a) => serde_json::Value::Array(a.iter().map(json_value_of).collect()),
        JsonValue::Object(m) => serde_json::Value::Object(
            m.iter().map(|(k, v)| (k.clone(), json_value_of(v))).collect(),
        ),
    }
}

/// The model of the value `serde_json` parses from `content`, or none when
/// it reports an error.
pub uninterp spec fn json_document(content: Seq<char>) -> Option<JsonView>;

/// The text `serde_json` prints for a value with its pretty printer and the
/// given indentation (none would stand for a failure, which printing a
/// `Value` never has).
pub uninterp spec fn json_pretty_text(value: JsonView, indent: Seq<char>) -> Option<Seq<char>>;

/// Parses JSON text (`serde_json::from_str` into a `Value`) and returns its
/// model. The result is named, not described: it is whatever `serde_json`
/// makes of `content`.
#[verifier::external_body]
pub(crate) fn json_parse(content: &str) -> (r: Result<JsonValue, serde_json::Error>)
    ensures
        r is Err <==> json_document(content@) is None,
        r matches Ok(v) ==> json_document(content@) == Some(json_view(v)),
{
    serde_json::from_str::<serde_json::Value>(content).map(|value| json_value_model(&value))
}

/// The message of a JSON error (`serde_json::Error`'s `Display`).
#[verifier::external_body]
pub(crate) fn json_error_text(error: &serde_json::Error) -> String {
    error.to_string()
}

/// Prints a value with `serde_json`'s `PrettyFormatter::with_indent`, then
/// reads the bytes as UTF-8. The text is named, not described. Printing
/// succeeds: serialization fails only for a failing `Serialize` impl or a
/// map with non-string keys, neither of which a `Value` has, writing into a
/// `Vec` never fails, and `serde_json` emits UTF-8 only (the indentation
/// comes from a `str`).
#[verifier::external_body]
fn json_pretty(value: &JsonValue, indent: &str) -> (r: Option<String>)
    ensures
        r is Some,
        r matches Some(t) ==> json_pretty_text(json_view(*value), indent@) == Some(t@),
{
    let formatter = serde_json::ser::PrettyFormatter::with_indent(indent.as_bytes());
    let mut serializer = serde_json::Serializer::with_formatter(Vec::new(), formatter);
    match serde::Serialize::serialize(&json_value_of(value), &mut serializer) {
        Ok(()) => String::from_utf8(serializer.into_inner()).ok(),
        Err(_) => None,
    }
}

// ---------------------------------------------------------------------------
// Reading dependencies
// ---------------------------------------------------------------------------

/// The dependency sections, in the order they are read.
pub open spec fn section_name(i: int) -> Seq<char> {
    if i == 0 {
        "dependencies"@
    } else if i == 1 {
        "devDependencies"@
    } else if i == 2 {
        "optionalDependencies"@
    } else {
        "peerDependencies"@
    }
}

/// The dependency a member of a section declares: string values only.
pub open spec fn node_dependency(section: Seq<char>, name: Seq<char>, v: JsonView) -> Option<
    DependencyModel,
> {
    match v {
        JsonView::Str(requirement) => {
            let (lookup_name, skip_reason) = spec_node_registry_target(name, requirement);
            Some(
                DependencyModel {
                    name,
                    lookup_name,
                    ecosystem: Ecosystem::Node,
                    group: section,
                    requirement,
                    raw: requirement,
                    syntax: RequirementSyntax::Node,
                    location: LocationModel::Json { section, key: name },
                    skip_reason,
                },
            )
        },
        _ => None,
    }
}

/// The dependencies of the first `n` members of a section.
pub open spec fn section_members(section: Seq<char>, ms: Seq<(Seq<char>, JsonView)>, n: int) -> Seq<
    DependencyModel,
>
    decreases n,
{
    if n <= 0 || n > ms.len() {
        seq![]
    } else {
        section_members(section, ms, n - 1) + crate::manifest::opt_seq(
            node_dependency(section, ms[n - 1].0, ms[n - 1].1),
        )
    }
}

/// The dependencies of one section; none when it is missing or not an
/// object.
pub open spec fn section_deps(top: JsonView, section: Seq<char>) -> Seq<DependencyModel> {
    match json_get(top, section) {
        Some(JsonView::Object(ms)) => section_members(section, ms, ms.len() as int),
        _ => seq![],
    }
}

/// The dependencies of the first `n` sections.
pub open spec fn node_sections(top: JsonView, n: int) -> Seq<DependencyModel>
    decreases n,
{
    if n <= 0 {
        seq![]
    } else {
        node_sections(top, n - 1) + section_deps(top, section_name(n - 1))
    }
}

/// The dependencies of a `package.json` document: `dependencies`,
/// `devDependencies`, `optionalDependencies` and `peerDependencies`, each
/// in member order.
pub open spec fn spec_package_json(top: JsonView) -> Seq<DependencyModel> {
    node_sections(top, 4)
}

/// The member named `k` of a list of members.
pub(crate) fn member_exec<'a>(ms: &'a [(String, JsonValue)], k: &[char]) -> (r: Option<&'a JsonValue>)
    ensures
        match r {
            Some(v) => member(json_member_views(ms@), k@) == Some(json_view(*v)),
            None => member(json_member_views(ms@), k@) is None,
        },
{
    let ghost v = json_member_views(ms@);
    proof {
        lemma_json_member_views(ms@);
        assert(v.skip(0) =~= v);
    }
    let mut i: usize = 0;
    while i < ms.len()
        invariant
            i <= ms@.len(),
            v == json_member_views(ms@),
            v.len() == ms@.len(),
            forall|j: int| 0 <= j < ms@.len() ==> #[trigger] v[j] == (ms@[j].0@, json_view(ms@[j].1)),
            member(v, k@) == member(v.skip(i as int), k@),
        decreases ms.len() - i,
    {
        assert(v.skip(i as int)[0] == v[i as int]);
        assert(v.skip(i as int).drop_first() =~= v.skip(i + 1));
        if eq_chars(chars_of_string(&ms[i].0).as_slice(), k) {
            return Some(&ms[i].1);
        }
        i = i + 1;
    }
    None
}

/// Appends the dependencies of one section.
fn collect_section(top: &JsonValue, section: &str, dependencies: &mut Vec<Dependency>)
    ensures
        deps_view(final(dependencies)@) == deps_view(old(dependencies)@) + section_deps(
            json_view(*top),
            section@,
        ),
{
    let ghost start = deps_view(dependencies@);
    let members = match top {
        JsonValue::Object(ms) => match member_exec(ms.as_slice(), chars_of(section).as_slice()) {
            Some(JsonValue::Object(inner)) => inner,
            _ => {
                assert(deps_view(dependencies@) =~= start + seq![]);
                return ;
            },
        },
        _ => {
            assert(deps_view(dependencies@) =~= start + seq![]);
            return ;
        },
    };
    let ghost ms = json_member_views(members@);
    proof {
        lemma_json_member_views(members@);
    }
    let mut k: usize = 0;
    while k < members.len()
        invariant
            k <= members@.len(),
            ms == json_member_views(members@),
            ms.len() == members@.len(),
            forall|j: int|
                0 <= j < members@.len() ==> #[trigger] ms[j] == (members@[j].0@, json_view(
                    members@[j].1,
                )),
            deps_view(dependencies@) == start + section_members(section@, ms, k as int),
        decreases members.len() - k,
    {
        let ghost prev = deps_view(dependencies@);
        match &members[k].1 {
            JsonValue::Str(requirement) => {
                let name = &members[k].0;
                let (lookup_name, skip_reason) = node_registry_target(
                    name.as_str(),
                    requirement.as_str(),
                );
                let d = Dependency {
                    name: name.clone(),
                    lookup_name,
                    ecosystem: Ecosystem::Node,
                    group: owned(section),
                    requirement: requirement.clone(),
                    raw: requirement.clone(),
                    syntax: RequirementSyntax::Node,
                    location: DependencyLocation::Json { section: owned(section), key: name.clone() },
                    skip_reason,
                };
                dependencies.push(d);
                proof {
                    assert(deps_view(dependencies@) =~= prev + seq![d@]);
                }
            },
            _ => {
                assert(deps_view(dependencies@) =~= prev + seq![]);
            },
        }
        k = k + 1;
    }
}

/// The dependencies of a parsed `package.json`.
pub fn package_json_dependencies(top: &JsonValue) -> (r: Vec<Dependency>)
    ensures
        deps_view(r@) == spec_package_json(json_view(*top)),
{
    let mut dependencies: Vec<Dependency> = Vec::new();
    let ghost t = json_view(*top);
    proof {
        assert(deps_view(dependencies@) =~= node_sections(t, 0));
    }
    collect_section(top, "dependencies", &mut dependencies);
    assert(deps_view(dependencies@) =~= node_sections(t, 1));
    collect_section(top, "devDependencies", &mut dependencies);
    assert(deps_view(dependencies@) =~= node_sections(t, 2));
    collect_section(top, "optionalDependencies", &mut dependencies);
    assert(deps_view(dependencies@) =~= node_sections(t, 3));
    collect_section(top, "peerDependencies", &mut dependencies);
    assert(deps_view(dependencies@) =~= node_sections(t, 4));
    dependencies
}

/// Parses `package.json` text (`path` names it in errors).
pub fn parse_package_json(content: &str, path: &str) -> (r: Result<Vec<Dependency>, String>)
    ensures
        match json_document(content@) {
            None => r matches Err(m) && m@.len() >= msg_failed_parse(path@).len() && m@.take(
                msg_failed_parse(path@).len() as int,
            ) == msg_failed_parse(path@),
            Some(top) => r matches Ok(v) && deps_view(v@) == spec_package_json(top),
        },
{
    match json_parse(content) {
        Err(e) => Err(failed_to_parse(path, json_error_text(&e))),
        Ok(top) => Ok(package_json_dependencies(&top)),
    }
}

// ---------------------------------------------------------------------------
// Rendering updates
// ---------------------------------------------------------------------------

pub open spec fn msg_invalid_json_update() -> Seq<char> {
    "invalid package.json dependency update"@
}

pub open spec fn msg_invalid_json_location() -> Seq<char> {
    "invalid package.json dependency location"@
}

pub open spec fn msg_not_found(section: Seq<char>, key: Seq<char>) -> Seq<char> {
    "could not find "@ + section + seq!['.'] + key
}

/// The document with member `key` of its object member `section` set to
/// the string `x`; none when there is no such member.
pub open spec fn json_set(doc: JsonView, section: Seq<char>, key: Seq<char>, x: Seq<char>) -> Option<
    JsonView,
> {
    match doc {
        JsonView::Object(ms) => match member(ms, section) {
            Some(JsonView::Object(inner)) => if member(inner, key) is Some {
                Some(
                    JsonView::Object(
                        set_member(
                            ms,
                            section,
                            JsonView::Object(set_member(inner, key, JsonView::Str(x))),
                        ),
                    ),
                )
            } else {
                None
            },
            _ => None,
        },
        _ => None,
    }
}

/// The document after the updates, applied in order, or the error of the
/// first one that names no dependency, a dependency outside `package.json`,
/// or a member the document does not have.
pub open spec fn json_apply(
    doc: JsonView,
    deps: Seq<DependencyModel>,
    updates: Seq<(int, Seq<char>)>,
) -> Result<JsonView, Seq<char>>
    decreases updates.len(),
{
    if updates.len() == 0 {
        Ok(doc)
    } else {
        match json_apply(doc, deps, updates.drop_last()) {
            Err(e) => Err(e),
            Ok(d) => {
                let (index, x) = updates.last();
                if index < 0 || index >= deps.len() {
                    Err(msg_invalid_json_update())
                } else {
                    match deps[index].location {
                        LocationModel::Json { section, key } => match json_set(d, section, key, x) {
                            Some(d2) => Ok(d2),
                            None => Err(msg_not_found(section, key)),
                        },
                        _ => Err(msg_invalid_json_location()),
                    }
                }
            },
        }
    }
}

/// Every `\n` written as `\r\n`.
pub open spec fn crlf(s: Seq<char>) -> Seq<char>
    decreases s.len(),
{
    if s.len() == 0 {
        seq![]
    } else {
        crlf(s.drop_last()) + if s.last() == '\n' {
            seq!['\r', '\n']
        } else {
            seq![s.last()]
        }
    }
}

/// Printed JSON with the line endings of the file it came from: `\r\n`
/// throughout when the file has any, and a final line break when it ends
/// with one.
pub open spec fn finish_json(content: Seq<char>, rendered: Seq<char>) -> Seq<char> {
    let body = if contains_seq(content, seq!['\r', '\n']) {
        crlf(rendered)
    } else {
        rendered
    };
    if content.len() > 0 && content.last() == '\n' {
        if ends_with(content, seq!['\r', '\n']) {
            body + seq!['\r', '\n']
        } else {
            body + seq!['\n']
        }
    } else {
        body
    }
}

/// The first member named `k`.
fn member_index(ms: &[(String, JsonValue)], k: &[char]) -> (r: Option<usize>)
    ensures
        match r {
            Some(i) => i < ms@.len() && ms@[i as int].0@ == k@ && forall|j: int|
                0 <= j < i ==> #[trigger] ms@[j].0@ != k@,
            None => forall|j: int| 0 <= j < ms@.len() ==> #[trigger] ms@[j].0@ != k@,
        },
{
    let mut i: usize = 0;
    while i < ms.len()
        invariant
            i <= ms@.len(),
            forall|j: int| 0 <= j < i ==> #[trigger] ms@[j].0@ != k@,
        decreases ms.len() - i,
    {
        if eq_chars(chars_of_string(&ms[i].0).as_slice(), k) {
            return Some(i);
        }
        i = i + 1;
    }
    None
}

proof fn lemma_member_first(
    v: Seq<(Seq<char>, JsonView)>,
    k: Seq<char>,
    i: int,
    x: JsonView,
)
    requires
        0 <= i < v.len(),
        v[i].0 == k,
        forall|j: int| 0 <= j < i ==> #[trigger] v[j].0 != k,
    ensures
        member(v, k) == Some(v[i].1),
        set_member(v, k, x) =~= v.update(i, (k, x)),
    decreases i,
{
    if i > 0 {
        assert forall|j: int| 0 <= j < i - 1 implies #[trigger] v.drop_first()[j].0 != k by {
            assert(v.drop_first()[j] == v[j + 1]);
        }
        assert(v[0].0 != k);
        lemma_member_first(v.drop_first(), k, i - 1, x);
        assert(v.drop_first().update(i - 1, (k, x)) =~= v.update(i, (k, x)).drop_first());
    }
}

proof fn lemma_member_none(v: Seq<(Seq<char>, JsonView)>, k: Seq<char>)
    requires
        forall|j: int| 0 <= j < v.len() ==> #[trigger] v[j].0 != k,
    ensures
        member(v, k) is None,
    decreases v.len(),
{
    if v.len() > 0 {
        assert forall|j: int| 0 <= j < v.len() - 1 implies #[trigger] v.drop_first()[j].0 != k by {
            assert(v.drop_first()[j] == v[j + 1]);
        }
        assert(v[0].0 != k);
        lemma_member_none(v.drop_first(), k);
    }
}

proof fn lemma_member_views_update(s: Seq<(String, JsonValue)>, i: int, e: (String, JsonValue))
    requires
        0 <= i < s.len(),
    ensures
        json_member_views(s.update(i, e)) == json_member_views(s).update(i, (e.0@, json_view(e.1))),
{
    lemma_json_member_views(s);
    lemma_json_member_views(s.update(i, e));
    assert(json_member_views(s.update(i, e)) =~= json_member_views(s).update(
        i,
        (e.0@, json_view(e.1)),
    ));
}

/// Sets `section.key` of a document to the string `x`.
fn json_set_exec(doc: JsonValue, section: &[char], key: &[char], x: &String) -> (r: Option<
    JsonValue,
>)
    ensures
        match json_set(json_view(doc), section@, key@, x@) {
            Some(d) => r matches Some(v) && json_view(v) == d,
            None => r is None,
        },
{
    let mut ms = match doc {
        JsonValue::Object(ms) => ms,
        _ => {
            return None;
        },
    };
    let ghost v0 = ms@;
    proof {
        lemma_json_member_views(ms@);
    }
    let i = match member_index(ms.as_slice(), section) {
        Some(i) => i,
        None => {
            proof {
                lemma_member_none(json_member_views(ms@), section@);
            }
            return None;
        },
    };
    proof {
        lemma_member_first(
            json_member_views(ms@),
            section@,
            i as int,
            JsonView::Null,
        );
    }
    let (name, value) = ms.remove(i);
    let mut inner = match value {
        JsonValue::Object(inner) => inner,
        _ => {
            return None;
        },
    };
    let ghost w0 = inner@;
    proof {
        lemma_json_member_views(inner@);
    }
    let j = match member_index(inner.as_slice(), key) {
        Some(j) => j,
        None => {
            proof {
                lemma_member_none(json_member_views(inner@), key@);
            }
            return None;
        },
    };
    let entry = (string_of(key), JsonValue::Str(x.clone()));
    proof {
        lemma_member_first(json_member_views(inner@), key@, j as int, JsonView::Str(x@));
        lemma_member_views_update(inner@, j as int, entry);
    }
    inner.set(j, entry);
    let new_section = (name, JsonValue::Object(inner));
    ms.insert(i, new_section);
    proof {
        assert(ms@ =~= v0.update(i as int, new_section));
        lemma_member_views_update(v0, i as int, new_section);
        lemma_member_first(
            json_member_views(v0),
            section@,
            i as int,
            json_view(new_section.1),
        );
    }
    Some(JsonValue::Object(ms))
}

proof fn lemma_json_apply_err_prefix(
    doc: JsonView,
    deps: Seq<DependencyModel>,
    u: Seq<(int, Seq<char>)>,
    k: int,
)
    requires
        0 <= k <= u.len(),
        json_apply(doc, deps, u.take(k)) is Err,
    ensures
        json_apply(doc, deps, u) == json_apply(doc, deps, u.take(k)),
    decreases u.len() - k,
{
    if k < u.len() {
        assert(u.take(k + 1).drop_last() =~= u.take(k));
        lemma_json_apply_err_prefix(doc, deps, u, k + 1);
    } else {
        assert(u.take(k) =~= u);
    }
}

/// Every `\n` written as `\r\n`.
fn crlf_exec(s: &[char]) -> (r: Vec<char>)
    ensures
        r@ == crlf(s@),
{
    let mut r: Vec<char> = Vec::new();
    let mut i: usize = 0;
    while i < s.len()
        invariant
            i <= s@.len(),
            r@ == crlf(s@.take(i as int)),
        decreases s.len() - i,
    {
        proof {
            assert(s@.take(i + 1).drop_last() =~= s@.take(i as int));
        }
        if s[i] == '\n' {
            r.push('\r');
            r.push('\n');
        } else {
            r.push(s[i]);
        }
        i = i + 1;
    }
    assert(s@.take(s@.len() as int) =~= s@);
    r
}

/// Matches printed JSON to the line endings of the file it came from.
pub fn finish_json_exec(content: &str, rendered: &str) -> (r: String)
    ensures
        r@ == finish_json(content@, rendered@),
{
    let c = chars_of(content);
    let text = chars_of(rendered);
    let crlf_pair: Vec<char> = vec!['\r', '\n'];
    proof {
        assert(crlf_pair@ =~= seq!['\r', '\n']);
    }
    let mut body = if contains_exec(c.as_slice(), crlf_pair.as_slice()) {
        crlf_exec(text.as_slice())
    } else {
        text
    };
    let n = c.len();
    if n > 0 && c[n - 1] == '\n' {
        if n >= 2 && c[n - 2] == '\r' {
            proof {
                assert(c@.skip(n - 2) =~= seq!['\r', '\n']);
            }
            body.push('\r');
            body.push('\n');
        } else {
            proof {
                if n >= 2 {
                    assert(c@.skip(n - 2)[0] == c@[n - 2]);
                }
            }
            body.push('\n');
        }
    }
    string_of(body.as_slice())
}

/// Renders `package.json` with the requested replacements. The document is
/// printed again by `serde_json` with the indentation of its first indented
/// line, and with the line endings the file had. Updates are written in the
/// order given, so when an index is given twice the later one wins.
pub fn render_package_json(
    content: &str,
    dependencies: &[Dependency],
    updates: &[(usize, String)],
) -> (r: Result<String, String>)
    ensures
        match json_document(content@) {
            None => r is Err,
            Some(doc) => match json_apply(doc, deps_view(dependencies@), updates_view(updates@)) {
                Err(e) => r matches Err(m) && m@ == e,
                Ok(d) => match json_pretty_text(d, indent_from(content@, 0, true)) {
                    Some(t) => r matches Ok(s) && s@ == finish_json(content@, t),
                    None => false,
                },
            },
        },
{
    let mut doc = match json_parse(content) {
        Err(e) => {
            return Err(json_error_text(&e));
        },
        Ok(v) => v,
    };
    let ghost start = json_view(doc);
    let ghost d = deps_view(dependencies@);
    let ghost u = updates_view(updates@);
    let mut k: usize = 0;
    while k < updates.len()
        invariant
            k <= updates@.len(),
            d == deps_view(dependencies@),
            u == updates_view(updates@),
            json_document(content@) == Some(start),
            json_apply(start, d, u.take(k as int)) == Ok::<JsonView, Seq<char>>(json_view(doc)),
        decreases updates.len() - k,
    {
        proof {
            assert(u.take(k + 1).drop_last() =~= u.take(k as int));
            assert(u.take(k + 1).last() == u[k as int]);
        }
        let index = updates[k].0;
        if index >= dependencies.len() {
            proof {
                lemma_json_apply_err_prefix(start, d, u, k + 1);
            }
            return Err(owned("invalid package.json dependency update"));
        }
        match &dependencies[index].location {
            DependencyLocation::Json { section, key } => {
                let sc = chars_of_string(section);
                let kc = chars_of_string(key);
                match json_set_exec(doc, sc.as_slice(), kc.as_slice(), &updates[k].1) {
                    Some(next) => {
                        doc = next;
                    },
                    None => {
                        let mut m = chars_of("could not find ");
                        push_all(&mut m, sc.as_slice());
                        m.push('.');
                        push_all(&mut m, kc.as_slice());
                        proof {
                            assert(d[index as int].location == LocationModel::Json {
                                section: section@,
                                key: key@,
                            });
                            assert(m@ =~= msg_not_found(section@, key@));
                            assert(json_apply(start, d, u.take(k + 1)) == Err::<
                                JsonView,
                                Seq<char>,
                            >(msg_not_found(section@, key@)));
                            lemma_json_apply_err_prefix(start, d, u, k + 1);
                        }
                        return Err(string_of(m.as_slice()));
                    },
                }
            },
            _ => {
                proof {
                    lemma_json_apply_err_prefix(start, d, u, k + 1);
                }
                return Err(owned("invalid package.json dependency location"));
            },
        }
        k = k + 1;
    }
    proof {
        assert(u.take(updates@.len() as int) =~= u);
    }
    let indent = detect_json_indent(content);
    match json_pretty(&doc, indent.as_str()) {
        Some(text) => Ok(finish_json_exec(content, text.as_str())),
        None => Err(owned("failed to print package.json")),
    }
}

} // verus!
