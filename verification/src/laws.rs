//! Properties that hold across the library's functions: the update safety
//! rules, how reported rows and collected updates relate, and what an
//! update does to a manifest.

use vstd::prelude::*;
use crate::manifest::{
    apply_edits, char_index, char_index_from, insert_desc, lemma_first_index_bounds, line_body,
    line_end, opt_seq, replace_bytes, requirements_from, section_header, setup_assignment,
    setup_cfg_from, setup_cfg_step, sort_desc, spec_render_text, text_dependency, text_edits,
    text_edits_fit, text_expression, splice_desc, char_span, char_spans, edits_fit_desc,
};
use crate::model::{
    Dependency, DependencyModel, Ecosystem, LocationModel, Manifest, ReportRow, ReportStatus,
    RequirementSyntax,
};
use crate::package_json::{
    JsonView, json_get, json_set, member, node_dependency, node_sections, section_deps,
    section_members, section_name, set_member, spec_package_json,
};
use crate::plan::{
    dep_key, has_key, key_needed, lookup_in, selected, selects, update_entries, updates_of,
};
use crate::registry::spec_normalize;
use crate::pyproject::{
    Entries, is_toml_location, p_groups, p_optional, p_poetry_deps, p_poetry_dev, p_poetry_group,
    p_project_deps, pep508_array_deps, pep508_groups, pep508_values, poetry_groups, python_entries,
    python_entry, python_map_deps, spec_pipfile, spec_pyproject, toml_update_error,
};
use crate::toml_doc::{TomlView, path_item, table_keys, toml_string_text};
use crate::toml_render::{Layout, location_edit, spec_render_toml, toml_edits};
use crate::registry::LookupKey;
use crate::text::{
    is_alnum, span_len, lemma_span_len,
    byte_len, ends_with, first_index, lower, first_occurrence, first_occurrence_from, is_ws,
    lemma_byte_len_split,
    occurs_at, starts_with, strip_end_char, trim, trim_end, trim_start, has_ws,
};
use vstd::utf8::encode_scalar;
use crate::version::{
    ConstraintKind, is_compound, loose_release, loose_suffix, npm_prefix, operator_len,
    pep508_model, release_order, spec_is_unconstrained, is_direct, msg_direct, spec_replacement_for,
    spec_requirement_status, spec_split_npm_alias, spec_update_node_requirement,
    spec_update_single_constraint, version_order, version_order_reflexive, spec_node_registry_target,
    msg_local, spec_rewrite, rewrite_refusal_ignores_latest, op_allowed, later_word_with_operator,
    word_start, name_char, unquoted_scan,
};

verus! {

// ---------------------------------------------------------------------------
// Update safety
// ---------------------------------------------------------------------------

/// A declaration is only ever given a replacement when its status is
/// outdated.
pub proof fn replacement_only_when_outdated(d: Dependency, latest: Seq<char>)
    ensures
        spec_replacement_for(d, latest) matches Ok(Some(_)) ==> spec_requirement_status(
            d,
            latest,
        ).0 == ReportStatus::Outdated,
{
}

/// A declaration gets a replacement exactly when it is outdated, and its
/// replacement is refused exactly when it is skipped; current, ahead and
/// unconstrained declarations are left as they are.
pub proof fn replacement_exactly_when_outdated(d: Dependency, latest: Seq<char>)
    ensures
        spec_replacement_for(d, latest) matches Ok(Some(_)) <==> spec_requirement_status(
            d,
            latest,
        ).0 == ReportStatus::Outdated,
        spec_replacement_for(d, latest) is Err <==> spec_requirement_status(d, latest).0
            == ReportStatus::Skipped,
{
}

/// A declaration that cannot be rewritten safely (an upper bound such as
/// `<2`, an exclusion, a wildcard, a direct reference) is reported as
/// skipped with the reason, whatever the latest version is, unless it is
/// unconstrained.
pub proof fn unsafe_rewrites_are_skipped(d: Dependency, latest: Seq<char>, other: Seq<char>)
    requires
        spec_rewrite(d, other) is Err,
        !spec_is_unconstrained(d.syntax, d.requirement@),
    ensures
        spec_requirement_status(d, latest).0 == ReportStatus::Skipped,
        spec_replacement_for(d, latest) is Err,
{
    rewrite_refusal_ignores_latest(d, other, latest);
}

/// A declaration with a skip reason (direct URL, git, path, local or
/// workspace source) is reported as skipped, with that reason, and never
/// rewritten.
pub proof fn skipped_declarations_are_never_rewritten(d: Dependency, latest: Seq<char>)
    requires
        d.skip_reason is Some,
    ensures
        spec_requirement_status(d, latest).0 == ReportStatus::Skipped,
        spec_replacement_for(d, latest) is Err,
{
}

/// A local path on the npm side (`./`, `../`, `/` or `~/`, after leading
/// and trailing whitespace) is skipped: it is looked up under its own name,
/// never on the registry, and carries the reason that keeps it from being
/// rewritten.
pub proof fn npm_local_paths_are_skipped(name: Seq<char>, requirement: Seq<char>)
    requires
        starts_with(trim(requirement), "./"@) || starts_with(trim(requirement), "../"@)
            || starts_with(trim(requirement), "/"@) || starts_with(trim(requirement), "~/"@),
    ensures
        spec_node_registry_target(name, requirement) == (name, Some(msg_local())),
{
    let t = trim(requirement);
    let l = lower(t);
    reveal_strlit("./");
    reveal_strlit("../");
    reveal_strlit("/");
    reveal_strlit("~/");
    assert forall|i: int| 0 <= i < t.len() && (t[i] == '.' || t[i] == '/' || t[i] == '~') implies #[trigger] l[i] == t[i] by {
    }
    if starts_with(t, "./"@) {
        assert(l.take(2) =~= "./"@);
    } else if starts_with(t, "../"@) {
        assert(l.take(3) =~= "../"@);
    } else if starts_with(t, "/"@) {
        assert(l.take(1) =~= "/"@);
    } else {
        assert(l.take(2) =~= "~/"@);
    }
}

/// An unconstrained declaration (`*`, `latest`, an empty range) is reported
/// as unconstrained and left as it is.
pub proof fn unconstrained_declarations_are_never_rewritten(d: Dependency, latest: Seq<char>)
    requires
        d.skip_reason is None,
        spec_is_unconstrained(d.syntax, d.requirement@),
    ensures
        spec_requirement_status(d, latest).0 == ReportStatus::Unconstrained,
        spec_replacement_for(d, latest) == Ok::<Option<Seq<char>>, Seq<char>>(None),
{
}

/// A compound range (`>=1,<2`, `a || b`, `1 - 2`, `>=1 <2`) is never
/// rewritten.
pub proof fn compound_ranges_are_never_rewritten(
    c: Seq<char>,
    latest: Seq<char>,
    kind: ConstraintKind,
)
    requires
        is_compound(trim(c)),
    ensures
        spec_update_single_constraint(c, latest, kind) is Err,
{
}

/// An upper bound (`<2`, `<=2`) is never rewritten.
pub proof fn upper_bounds_are_never_rewritten(c: Seq<char>, latest: Seq<char>, kind: ConstraintKind)
    requires
        trim(c).len() > 0,
        trim(c)[0] == '<',
    ensures
        spec_update_single_constraint(c, latest, kind) is Err,
{
    let t = trim(c);
    assert(operator_len(t) == 1 || operator_len(t) == 2);
    assert(t.take(operator_len(t))[0] == '<');
}

/// A constraint holding a wildcard (`*`, `x`, `X`) is never rewritten.
pub proof fn wildcards_are_never_rewritten(
    c: Seq<char>,
    latest: Seq<char>,
    kind: ConstraintKind,
    i: int,
)
    requires
        0 <= i < trim(c).len(),
        trim(c)[i] == '*' || trim(c)[i] == 'x' || trim(c)[i] == 'X',
    ensures
        spec_update_single_constraint(c, latest, kind) is Err,
{
    let t = trim(c);
    let n = operator_len(t);
    if t.len() > 0 && t != seq!['*'] && !is_compound(t) {
        assert(i >= n);
        let s = t.skip(n);
        let w = s.len() - trim_start(s).len();
        lemma_trim_start_suffix(s);
        let k = i - n;
        assert(s[k] == t[i]);
        assert(!is_ws(s[k]));
        assert(k >= w);
        assert(trim_start(s)[k - w] == s[k]);
        let rem = trim_start(s);
        assert(rem.contains(t[i]));
    }
}

/// `trim_start(s)` is a suffix of `s` after leading whitespace.
proof fn lemma_trim_start_suffix(s: Seq<char>)
    ensures
        trim_start(s).len() <= s.len(),
        trim_start(s) == s.skip(s.len() - trim_start(s).len()),
        forall|j: int| 0 <= j < s.len() - trim_start(s).len() ==> is_ws(#[trigger] s[j]),
    decreases s.len(),
{
    if s.len() > 0 && is_ws(s[0]) {
        lemma_trim_start_suffix(s.drop_first());
        assert(s.drop_first().skip(s.drop_first().len() - trim_start(s).len()) =~= s.skip(
            s.len() - trim_start(s).len(),
        ));
        assert forall|j: int| 0 <= j < s.len() - trim_start(s).len() implies is_ws(
            #[trigger] s[j],
        ) by {
            if j > 0 {
                assert(s.drop_first()[j - 1] == s[j]);
            }
        }
    } else {
        assert(s.skip(0) =~= s);
    }
}

/// A rewrite keeps the constraint up to its version (operator and spacing)
/// and only puts `latest` in place of the version.
pub proof fn rewrite_keeps_everything_before_the_version(
    c: Seq<char>,
    latest: Seq<char>,
    kind: ConstraintKind,
)
    ensures
        spec_update_single_constraint(c, latest, kind) matches Ok(r) ==> r.len() >= latest.len()
            && r == trim(c).take(r.len() - latest.len()) + latest,
{
    let t = trim(c);
    if let Ok(r) = spec_update_single_constraint(c, latest, kind) {
        let n = operator_len(t);
        let rem = trim_start(t.skip(n));
        lemma_trim_start_suffix(t.skip(n));
        assert(t.take(n) + t.subrange(n, t.len() - rem.len()) =~= t.take(t.len() - rem.len()));
    }
}

/// Rewriting a PEP 508 declaration keeps everything around its version
/// specifier: the name, extras and environment markers.
pub proof fn pep508_rewrite_keeps_name_extras_and_markers(d: Dependency, latest: Seq<char>)
    requires
        d.syntax == RequirementSyntax::Pep508,
    ensures
        spec_replacement_for(d, latest) matches Ok(Some(r)) ==> pep508_model(d.raw@) matches Some(
            (_, s, e),
        ) && starts_with(r, d.raw@.take(s)) && ends_with(r, d.raw@.skip(e)),
{
    if let Ok(Some(r)) = spec_replacement_for(d, latest) {
        let (_, s, e) = pep508_model(d.raw@)->0;
        let c = spec_update_single_constraint(d.raw@.subrange(s, e), latest, ConstraintKind::Python)->Ok_0;
        assert(r == d.raw@.take(s) + c + d.raw@.skip(e));
        assert(r.take(d.raw@.take(s).len() as int) =~= d.raw@.take(s));
        assert(r.skip(r.len() - d.raw@.skip(e).len()) =~= d.raw@.skip(e));
    }
}

/// Rewriting an npm alias (`npm:target@range`) keeps the alias and its
/// target, and the whitespace around the declaration.
pub proof fn npm_alias_rewrite_keeps_target(req: Seq<char>, latest: Seq<char>)
    requires
        starts_with(trim(req), npm_prefix()),
    ensures
        spec_update_node_requirement(req, latest) matches Ok(r) ==> starts_with(
            r,
            req.take(req.len() - trim_start(req).len()) + npm_prefix() + spec_split_npm_alias(
                trim(req).skip(4),
            ).0 + seq!['@'],
        ) && ends_with(r, req.skip(trim_end(req).len() as int)),
{
    if let Ok(r) = spec_update_node_requirement(req, latest) {
        let range = spec_split_npm_alias(trim(req).skip(4)).1->0;
        let u = spec_update_single_constraint(range, latest, ConstraintKind::Node)->Ok_0;
        let head = req.take(req.len() - trim_start(req).len()) + npm_prefix() + spec_split_npm_alias(
            trim(req).skip(4),
        ).0 + seq!['@'];
        let tail = req.skip(trim_end(req).len() as int);
        assert(r == head + u + tail);
        assert(r.take(head.len() as int) =~= head);
        assert(r.skip(r.len() - tail.len()) =~= tail);
    }
}

// ---------------------------------------------------------------------------
// Version order
// ---------------------------------------------------------------------------

/// A pre-release (a version with a suffix such as `rc1`) ranks below the
/// release with the same numbers.
pub proof fn prerelease_ranks_below_its_release(x: Seq<char>, y: Seq<char>)
    requires
        loose_release(x) == loose_release(y),
        loose_suffix(x).len() > 0,
        loose_suffix(y).len() == 0,
    ensures
        version_order(x, y) == -1,
        version_order(y, x) == 1,
{
    version_order_reflexive(y);
    assert(release_order(loose_release(y), loose_release(y), 0) == 0);
}

// ---------------------------------------------------------------------------
// Reports and updates
// ---------------------------------------------------------------------------

/// The row is outdated and asks for the update `e` (manifest index,
/// dependency index, replacement).
pub open spec fn row_gives_update(row: ReportRow, e: (int, int, Seq<char>)) -> bool {
    &&& row.status == ReportStatus::Outdated
    &&& row.replacement matches Some(r) && r@ == e.2
    &&& row.manifest_index == e.0
    &&& row.dependency_index == e.1
}

/// Each collected update is asked for by some outdated row.
pub open spec fn updates_from_rows(rows: Seq<ReportRow>) -> bool {
    forall|k: int| 0 <= k < update_entries(rows).len() ==> #[trigger] update_source(rows, k)
}

/// Some outdated row asks for the `k`-th collected update.
pub open spec fn update_source(rows: Seq<ReportRow>, k: int) -> bool {
    exists|j: int| 0 <= j < rows.len() && #[trigger] row_gives_update(rows[j], update_entries(rows)[k])
}

proof fn lemma_update_source(rows: Seq<ReportRow>, k: int)
    requires
        0 <= k < update_entries(rows).len(),
    ensures
        update_source(rows, k),
    decreases rows.len(),
{
    let prev = rows.drop_last();
    let last = rows.last();
    if last.status == ReportStatus::Outdated && last.replacement is Some {
        assert(update_entries(rows) == update_entries(prev).push(
            (last.manifest_index as int, last.dependency_index as int, last.replacement->0@),
        ));
    } else {
        assert(update_entries(rows) == update_entries(prev));
    }
    if k < update_entries(prev).len() {
        lemma_update_source(prev, k);
        assert(update_source(prev, k));
        assert(update_entries(rows)[k] == update_entries(prev)[k]);
        let j = choose|j: int| 0 <= j < prev.len() && #[trigger] row_gives_update(prev[j], update_entries(prev)[k]);
        assert(rows[j] == prev[j]);
        assert(row_gives_update(rows[j], update_entries(rows)[k]));
    } else {
        assert(row_gives_update(rows[rows.len() - 1], update_entries(rows)[k]));
    }
}

/// Every collected update comes from an outdated row with that replacement.
pub proof fn updates_come_from_outdated_rows(rows: Seq<ReportRow>)
    ensures
        updates_from_rows(rows),
{
    assert forall|k: int| 0 <= k < update_entries(rows).len() implies #[trigger] update_source(
        rows,
        k,
    ) by {
        lemma_update_source(rows, k);
    }
}

/// When every planned lookup has an answer, every dependency that is not
/// skipped finds its answer: no report row says the lookup was not made.
pub proof fn planned_lookups_cover_every_dependency(
    ms: Seq<Manifest>,
    keys: Seq<LookupKey>,
    lookups: Seq<(LookupKey, Result<String, String>)>,
    i: int,
    j: int,
)
    requires
        forall|x: (Ecosystem, Seq<char>)|
            #![trigger has_key(keys, x)]
            #![trigger key_needed(ms, x)]
            has_key(keys, x) <==> key_needed(ms, x),
        forall|x: (Ecosystem, Seq<char>)|
            #[trigger] has_key(keys, x) ==> lookup_in(lookups, x) is Some,
        0 <= i < ms.len(),
        0 <= j < ms[i].dependencies@.len(),
    ensures
        ms[i].dependencies@[j].skip_reason is None ==> lookup_in(
            lookups,
            dep_key(ms[i].dependencies@[j]@),
        ) is Some,
{
    let d = ms[i].dependencies@[j];
    if d.skip_reason is None {
        assert(key_needed(ms, dep_key(d@)));
        assert(has_key(keys, dep_key(d@)));
    }
}

/// With no package names given, the filter selects every dependency.
pub proof fn empty_filter_selects_everything(d: DependencyModel)
    ensures
        selects(seq![], d),
{
}

// ---------------------------------------------------------------------------
// Rendering
// ---------------------------------------------------------------------------

/// Rendering a text manifest without updates gives back its text.
pub proof fn text_render_without_updates_keeps_text(
    content: Seq<char>,
    deps: Seq<DependencyModel>,
)
    ensures
        spec_render_text(content, deps, seq![]) == Ok::<Option<Seq<char>>, Seq<char>>(
            Some(content),
        ),
{
    assert(text_edits(deps, seq![]) == Ok::<Seq<(int, int, Seq<char>)>, Seq<char>>(seq![]));
}

/// One update of a text manifest replaces exactly the declaration's span
/// and keeps everything before and after it.
pub proof fn text_update_replaces_only_its_span(
    content: Seq<char>,
    deps: Seq<DependencyModel>,
    i: int,
    rep: Seq<char>,
)
    requires
        0 <= i < deps.len(),
        deps[i].location is TextSpan,
    ensures
        ({
            let (start, end) = (deps[i].location->start, deps[i].location->end);
            spec_render_text(content, deps, seq![(i, rep)]) == Ok::<
                Option<Seq<char>>,
                Seq<char>,
            >(replace_bytes(content, start, end, rep))
        }),
{
    let (start, end) = (deps[i].location->start, deps[i].location->end);
    let u = seq![(i, rep)];
    assert(u.drop_last() =~= Seq::<(int, Seq<char>)>::empty());
    let e = (start, end, rep);
    assert(text_edits(deps, u.drop_last()) == Ok::<Seq<(int, int, Seq<char>)>, Seq<char>>(
        seq![],
    ));
    assert(u.last() == (i, rep));
    assert(Seq::<(int, int, Seq<char>)>::empty().push(e) =~= seq![e]);
    assert(text_edits(deps, u) == Ok::<Seq<(int, int, Seq<char>)>, Seq<char>>(seq![e]));
    let one = seq![e];
    assert(one.drop_last() =~= Seq::<(int, int, Seq<char>)>::empty());
    assert(sort_desc(Seq::<(int, int, Seq<char>)>::empty()) == Seq::<(int, int, Seq<char>)>::empty());
    assert(one.last() == e);
    assert(sort_desc(one) == seq![e]);
    match replace_bytes(content, start, end, rep) {
        Some(t) => {
            assert(one.drop_first() =~= Seq::<(int, int, Seq<char>)>::empty());
            assert(apply_edits(t, Seq::<(int, int, Seq<char>)>::empty()) == Some(t));
        },
        None => {},
    }
}

/// Setting a `package.json` member gives back the new string under that
/// member and leaves every other section as it was.
pub proof fn json_update_reads_back(
    doc: JsonView,
    section: Seq<char>,
    key: Seq<char>,
    x: Seq<char>,
    other: Seq<char>,
)
    requires
        json_set(doc, section, key, x) is Some,
    ensures
        ({
            let d = json_set(doc, section, key, x)->0;
            &&& json_get(d, section) matches Some(s) && json_get(s, key) == Some(JsonView::Str(x))
            &&& other != section ==> json_get(d, other) == json_get(doc, other)
        }),
{
    let ms = doc->Object_0;
    let inner = member(ms, section)->0->Object_0;
    lemma_set_member(inner, key, JsonView::Str(x), key);
    lemma_set_member(ms, section, JsonView::Object(set_member(inner, key, JsonView::Str(x))), section);
    lemma_set_member(ms, section, JsonView::Object(set_member(inner, key, JsonView::Str(x))), other);
}

/// A member that is present is found.
proof fn lemma_member_present(ms: Seq<(Seq<char>, JsonView)>, j: int)
    requires
        0 <= j < ms.len(),
    ensures
        member(ms, ms[j].0) is Some,
    decreases j,
{
    if j > 0 && ms[0].0 != ms[j].0 {
        assert(ms.drop_first()[j - 1] == ms[j]);
        lemma_member_present(ms.drop_first(), j - 1);
    }
}

/// The dependencies of a section's first `n` members are JSON locations of
/// members present in that section.
proof fn lemma_section_members_located(
    section: Seq<char>,
    ms: Seq<(Seq<char>, JsonView)>,
    n: int,
    k: int,
)
    requires
        0 <= k < section_members(section, ms, n).len(),
    ensures
        section_members(section, ms, n)[k].location matches LocationModel::Json { section: s, key }
            && s == section && member(ms, key) is Some,
    decreases n,
{
    if 0 < n <= ms.len() {
        let prev = section_members(section, ms, n - 1);
        let here = opt_seq(node_dependency(section, ms[n - 1].0, ms[n - 1].1));
        assert(section_members(section, ms, n) == prev + here);
        if k < prev.len() {
            assert(section_members(section, ms, n)[k] == prev[k]);
            lemma_section_members_located(section, ms, n - 1, k);
        } else {
            assert(section_members(section, ms, n)[k] == here[0]);
            lemma_member_present(ms, n - 1);
        }
    }
}

proof fn lemma_node_sections_writable(top: JsonView, n: int, k: int, x: Seq<char>)
    requires
        0 <= k < node_sections(top, n).len(),
    ensures
        node_sections(top, n)[k].location matches LocationModel::Json { section, key } && json_set(
            top,
            section,
            key,
            x,
        ) is Some,
    decreases n,
{
    if n > 0 {
        let prev = node_sections(top, n - 1);
        let here = section_deps(top, section_name(n - 1));
        assert(node_sections(top, n) == prev + here);
        if k < prev.len() {
            assert(node_sections(top, n)[k] == prev[k]);
            lemma_node_sections_writable(top, n - 1, k, x);
        } else {
            assert(node_sections(top, n)[k] == here[k - prev.len()]);
            let ms = json_get(top, section_name(n - 1))->0->Object_0;
            lemma_section_members_located(section_name(n - 1), ms, ms.len() as int, k - prev.len());
        }
    }
}

/// Every dependency read from a `package.json` document can be rewritten in
/// it: its section and key are found, so its update never fails with
/// "could not find".
pub proof fn package_json_declarations_are_writable(top: JsonView, k: int, x: Seq<char>)
    requires
        0 <= k < spec_package_json(top).len(),
    ensures
        spec_package_json(top)[k].location matches LocationModel::Json { section, key } && json_set(
            top,
            section,
            key,
            x,
        ) is Some,
{
    lemma_node_sections_writable(top, 4, k, x);
}

/// What a member lookup finds after `set_member`.
proof fn lemma_set_member(
    ms: Seq<(Seq<char>, JsonView)>,
    k: Seq<char>,
    x: JsonView,
    q: Seq<char>,
)
    ensures
        member(set_member(ms, k, x), q) == if q == k {
            if member(ms, k) is Some {
                Some(x)
            } else {
                None
            }
        } else {
            member(ms, q)
        },
    decreases ms.len(),
{
    if ms.len() > 0 {
        if ms[0].0 == k {
            let r = seq![(k, x)] + ms.drop_first();
            assert(r[0] == (k, x));
            assert(r.drop_first() =~= ms.drop_first());
        } else {
            lemma_set_member(ms.drop_first(), k, x, q);
            let r = seq![ms[0]] + set_member(ms.drop_first(), k, x);
            assert(r[0] == ms[0]);
            assert(r.drop_first() =~= set_member(ms.drop_first(), k, x));
        }
    }
}

// ---------------------------------------------------------------------------
// Parsed spans
// ---------------------------------------------------------------------------

/// `trim_end(s)` is a prefix of `s`.
proof fn lemma_trim_end_prefix(s: Seq<char>)
    ensures
        trim_end(s).len() <= s.len(),
        trim_end(s) == s.take(trim_end(s).len() as int),
    decreases s.len(),
{
    if s.len() > 0 && is_ws(s.last()) {
        lemma_trim_end_prefix(s.drop_last());
        assert(s.drop_last().take(trim_end(s).len() as int) =~= s.take(trim_end(s).len() as int));
    } else {
        assert(s.take(s.len() as int) =~= s);
    }
}

/// `strip_end_char(s, c)` is a prefix of `s`.
proof fn lemma_strip_end_prefix(s: Seq<char>, c: char)
    ensures
        strip_end_char(s, c).len() <= s.len(),
        strip_end_char(s, c) == s.take(strip_end_char(s, c).len() as int),
    decreases s.len(),
{
    if s.len() > 0 && s.last() == c {
        lemma_strip_end_prefix(s.drop_last(), c);
        assert(s.drop_last().take(strip_end_char(s, c).len() as int) =~= s.take(
            strip_end_char(s, c).len() as int,
        ));
    } else {
        assert(s.take(s.len() as int) =~= s);
    }
}

proof fn lemma_first_occurrence_found(s: Seq<char>, p: Seq<char>, i: int)
    ensures
        first_occurrence_from(s, p, i) matches Some(k) ==> occurs_at(s, p, k),
    decreases s.len() + 1 - i,
{
    if 0 <= i <= s.len() && !occurs_at(s, p, i) {
        lemma_first_occurrence_found(s, p, i + 1);
    }
}

/// The expression of a text line is the line after its leading whitespace,
/// cut short.
proof fn lemma_text_expression_in_line(line: Seq<char>)
    ensures
        text_expression(line) matches Some(e) ==> {
            let lead = line.len() - trim_start(line).len();
            &&& 0 <= lead
            &&& lead + e.len() <= line.len()
            &&& line.subrange(lead, lead + e.len()) == e
            &&& e.len() > 0
            &&& e[0] != '#'
            &&& e[0] != '-'
        },
{
    let t = trim_start(line);
    lemma_trim_start_suffix(line);
    if let Some(e) = text_expression(line) {
        let lead = line.len() - t.len();
        lemma_first_occurrence_found(t, seq![' ', '#'], 0);
        lemma_first_occurrence_found(t, seq!['\t', '#'], 0);
        let cut = match first_occurrence(t, seq![' ', '#']) {
            Some(i) => i,
            None => match first_occurrence(t, seq!['\t', '#']) {
                Some(i) => i,
                None => t.len() as int,
            },
        };
        assert(0 <= cut <= t.len());
        let e0 = trim_end(t.take(cut));
        lemma_trim_end_prefix(t.take(cut));
        let e1 = if e0.len() > 0 && e0.last() == '\\' {
            trim_end(e0.drop_last())
        } else {
            e0
        };
        lemma_trim_end_prefix(e0.drop_last());
        lemma_strip_end_prefix(e1, ',');
        lemma_trim_end_prefix(strip_end_char(e1, ','));
        assert(e == trim_end(strip_end_char(e1, ',')));
        assert(e1 =~= t.take(e1.len() as int));
        assert(e =~= t.take(e.len() as int));
        assert(line.subrange(lead, lead + e.len()) =~= t.take(e.len() as int));
        assert(e[0] == t[0]);
    }
}

/// The body of a line is a prefix of the line.
proof fn lemma_line_body_prefix(x: Seq<char>)
    ensures
        line_body(x).len() <= x.len(),
        line_body(x) == x.take(line_body(x).len() as int),
{
    let a = if x.len() > 0 && x.last() == '\n' {
        x.drop_last()
    } else {
        x
    };
    assert(a =~= x.take(a.len() as int));
    if a.len() > 0 && a.last() == '\r' {
        assert(a.drop_last() =~= x.take(a.len() - 1));
    }
}

/// Every character takes at least one byte.
proof fn lemma_byte_len_at_least_len(s: Seq<char>)
    ensures
        byte_len(s) >= s.len(),
    decreases s.len(),
{
    if s.len() > 0 {
        lemma_byte_len_at_least_len(s.drop_first());
        assert(encode_scalar(s[0] as u32).len() >= 1);
    }
}

/// A character index whose byte offset is `b` is found at that index.
proof fn lemma_char_index_from(s: Seq<char>, i: int, j: int)
    requires
        0 <= j <= i <= s.len(),
    ensures
        char_index_from(s, byte_len(s.take(i)) as int, j) == Some(i),
    decreases i - j,
{
    if j < i {
        lemma_byte_len_split(s, j, i);
        lemma_byte_len_at_least_len(s.subrange(j, i));
        lemma_char_index_from(s, i, j + 1);
    }
}

/// The declaration at `d`'s recorded byte span of `content` is `d.raw`.
pub open spec fn span_holds(content: Seq<char>, d: DependencyModel) -> bool {
    match d.location {
        LocationModel::TextSpan { start, end } => match (
            char_index(content, start),
            char_index(content, end),
        ) {
            (Some(a), Some(b)) => a <= b <= content.len() && content.subrange(a, b) == d.raw,
            _ => false,
        },
        _ => false,
    }
}

/// The byte span of a declaration read from the text `x`, found at
/// character `q` of `content`, holds it and lies within `x`.
proof fn lemma_text_dependency_span(content: Seq<char>, q: int, x: Seq<char>, g: Seq<char>)
    requires
        0 <= q,
        q + x.len() <= content.len(),
        x == content.subrange(q, q + x.len()),
        text_dependency(x, byte_len(content.take(q)) as int, g) is Some,
    ensures
        ({
            let d = text_dependency(x, byte_len(content.take(q)) as int, g)->0;
            &&& span_holds(content, d)
            &&& byte_len(content.take(q)) <= d.location->start
            &&& d.location->start < d.location->end
            &&& d.location->end <= byte_len(content.take(q + x.len()))
            &&& char_index(content, d.location->start) == Some(q + x.len() - trim_start(x).len())
            &&& char_index(content, d.location->end)->0 <= q + x.len()
        }),
{
    let e = text_expression(x)->0;
    let lead = x.len() - trim_start(x).len();
    lemma_text_expression_in_line(x);
    assert(x.take(lead) =~= content.subrange(q, q + lead));
    assert(e =~= content.subrange(q + lead, q + lead + e.len()));
    lemma_byte_len_split(content, q, q + lead);
    lemma_byte_len_split(content, q + lead, q + lead + e.len());
    lemma_byte_len_split(content, q + lead + e.len(), q + x.len());
    lemma_byte_len_at_least_len(e);
    lemma_char_index_from(content, q + lead, 0);
    lemma_char_index_from(content, q + lead + e.len(), 0);
}

/// Each declaration sits at its non-empty byte span, and the spans come in
/// file order without overlapping.
pub open spec fn spans_in_order(content: Seq<char>, deps: Seq<DependencyModel>) -> bool {
    &&& forall|k: int|
        0 <= k < deps.len() ==> span_holds(content, #[trigger] deps[k]) && deps[k].location->start
            < deps[k].location->end
    &&& forall|p: int, q: int|
        0 <= p < q < deps.len() ==> #[trigger] deps[p].location->end
            <= #[trigger] deps[q].location->start
}

/// Spans of the requirements read from the line at `pos` on: each holds
/// its declaration and lies after `pos`.
proof fn lemma_requirement_span(content: Seq<char>, pos: int, k: int)
    requires
        0 <= pos,
        0 <= k < requirements_from(content, pos).len(),
    ensures
        span_holds(content, requirements_from(content, pos)[k]),
        byte_len(content.take(pos)) <= requirements_from(content, pos)[k].location->start,
        requirements_from(content, pos)[k].location->start < requirements_from(
            content,
            pos,
        )[k].location->end,
    decreases content.len() - pos,
{
    let end = line_end(content, pos);
    let line = line_body(content.subrange(pos, end));
    let here = opt_seq(text_dependency(line, byte_len(content.take(pos)) as int, "requirements"@));
    assert(requirements_from(content, pos) == here + requirements_from(content, end));
    lemma_byte_len_split(content, pos, end);
    if k < here.len() {
        lemma_line_body_prefix(content.subrange(pos, end));
        assert(line =~= content.subrange(pos, pos + line.len()));
        lemma_text_dependency_span(content, pos, line, "requirements"@);
        assert(requirements_from(content, pos)[k] == here[0]);
    } else {
        assert(requirements_from(content, pos)[k] == requirements_from(content, end)[k
            - here.len()]);
        lemma_requirement_span(content, end, k - here.len());
    }
}

proof fn lemma_requirements_ordered(content: Seq<char>, pos: int, p: int, q: int)
    requires
        0 <= pos,
        0 <= p < q < requirements_from(content, pos).len(),
    ensures
        requirements_from(content, pos)[p].location->end <= requirements_from(
            content,
            pos,
        )[q].location->start,
    decreases content.len() - pos,
{
    let end = line_end(content, pos);
    let line = line_body(content.subrange(pos, end));
    let here = opt_seq(text_dependency(line, byte_len(content.take(pos)) as int, "requirements"@));
    let rest = requirements_from(content, end);
    assert(requirements_from(content, pos) == here + rest);
    if here.len() == 1 {
        if p == 0 {
            lemma_line_body_prefix(content.subrange(pos, end));
            assert(line =~= content.subrange(pos, pos + line.len()));
            lemma_text_dependency_span(content, pos, line, "requirements"@);
            lemma_byte_len_split(content, pos + line.len(), end);
            lemma_requirement_span(content, end, q - 1);
            assert(requirements_from(content, pos)[q] == rest[q - 1]);
        } else {
            assert(requirements_from(content, pos)[p] == rest[p - 1]);
            assert(requirements_from(content, pos)[q] == rest[q - 1]);
            lemma_requirements_ordered(content, end, p - 1, q - 1);
        }
    } else {
        assert(requirements_from(content, pos)[p] == rest[p]);
        assert(requirements_from(content, pos)[q] == rest[q]);
        lemma_requirements_ordered(content, end, p, q);
    }
}

/// The spans the requirements parser records hold their declarations, in
/// file order and without overlap.
pub proof fn requirement_spans_in_order(content: Seq<char>)
    ensures
        spans_in_order(content, requirements_from(content, 0)),
{
    let deps = requirements_from(content, 0);
    assert forall|k: int| 0 <= k < deps.len() implies span_holds(content, #[trigger] deps[k])
        && deps[k].location->start < deps[k].location->end by {
        lemma_requirement_span(content, 0, k);
    }
    assert forall|p: int, q: int| 0 <= p < q < deps.len() implies #[trigger] deps[p].location->end
        <= #[trigger] deps[q].location->start by {
        lemma_requirements_ordered(content, 0, p, q);
    }
}

/// Whether `p` starts a line of `content`.
pub open spec fn line_start(content: Seq<char>, p: int) -> bool {
    p == 0 || (0 < p <= content.len() && content[p - 1] == '\n')
}

/// Whether the declaration `d` sits on the line that starts at `p`: its
/// span starts at the line's first non-blank character and ends within the
/// line.
pub open spec fn declared_on_line(content: Seq<char>, p: int, d: DependencyModel) -> bool {
    let line = line_body(content.subrange(p, line_end(content, p)));
    &&& line_start(content, p)
    &&& 0 <= p < content.len()
    &&& char_index(content, d.location->start) == Some(p + line.len() - trim_start(line).len())
    &&& char_index(content, d.location->end)->0 <= p + line.len()
}

proof fn lemma_requirement_line(content: Seq<char>, pos: int, k: int) -> (p: int)
    requires
        0 <= pos,
        line_start(content, pos),
        0 <= k < requirements_from(content, pos).len(),
    ensures
        declared_on_line(content, p, requirements_from(content, pos)[k]),
        forall|k2: int|
            k < k2 < requirements_from(content, pos).len() ==> char_index(
                content,
                #[trigger] requirements_from(content, pos)[k2].location->start,
            )->0 >= line_end(content, p),
    decreases content.len() - pos,
{
    let end = line_end(content, pos);
    let line = line_body(content.subrange(pos, end));
    let here = opt_seq(text_dependency(line, byte_len(content.take(pos)) as int, "requirements"@));
    let rest = requirements_from(content, end);
    assert(requirements_from(content, pos) == here + rest);
    lemma_first_index_bounds(content.skip(pos), '\n');
    if let Some(i) = first_index(content.skip(pos), '\n') {
        assert(content.skip(pos)[i] == '\n');
        assert(content[end - 1] == '\n');
    }
    lemma_byte_len_split(content, pos, end);
    assert forall|k2: int| 0 <= k2 < rest.len() implies char_index(content, #[trigger] rest[k2].location->start)->0
        >= end by {
        lemma_requirement_span(content, end, k2);
        lemma_char_index_found(content, rest[k2].location->start);
        assert(span_holds(content, rest[k2]));
        lemma_prefix_index_monotone(content, end, char_index(content, rest[k2].location->start)->0);
    }
    if k < here.len() {
        lemma_line_body_prefix(content.subrange(pos, end));
        assert(line =~= content.subrange(pos, pos + line.len()));
        lemma_text_dependency_span(content, pos, line, "requirements"@);
        assert(requirements_from(content, pos)[k] == here[0]);
        assert forall|k2: int| k < k2 < requirements_from(content, pos).len() implies char_index(
            content,
            #[trigger] requirements_from(content, pos)[k2].location->start,
        )->0 >= line_end(content, pos) by {
            assert(requirements_from(content, pos)[k2] == rest[k2 - 1]);
        }
        pos
    } else {
        assert(requirements_from(content, pos)[k] == rest[k - here.len()]);
        let p = lemma_requirement_line(content, end, k - here.len());
        assert forall|k2: int| k < k2 < requirements_from(content, pos).len() implies char_index(
            content,
            #[trigger] requirements_from(content, pos)[k2].location->start,
        )->0 >= line_end(content, p) by {
            assert(requirements_from(content, pos)[k2] == rest[k2 - here.len()]);
        }
        p
    }
}

/// Whether dependency `k` of `deps` sits on the line that starts at `p`
/// and every later one starts after that line ends.
pub open spec fn alone_on_line(content: Seq<char>, deps: Seq<DependencyModel>, k: int, p: int) -> bool {
    &&& declared_on_line(content, p, deps[k])
    &&& forall|k2: int|
        k < k2 < deps.len() ==> char_index(content, #[trigger] deps[k2].location->start)->0
            >= line_end(content, p)
}

/// Whether dependency `k` of `deps` sits alone on some line.
pub open spec fn has_own_line(content: Seq<char>, deps: Seq<DependencyModel>, k: int) -> bool {
    exists|p: int| #[trigger] alone_on_line(content, deps, k, p)
}

/// Each dependency of a requirements file sits on a line of its own: its
/// span starts at the first non-blank character of its line and ends within
/// that line, and every later dependency starts after that line ends.
pub proof fn one_requirement_per_line(content: Seq<char>)
    ensures
        forall|k: int|
            0 <= k < requirements_from(content, 0).len() ==> #[trigger] has_own_line(
                content,
                requirements_from(content, 0),
                k,
            ),
{
    assert forall|k: int| 0 <= k < requirements_from(content, 0).len() implies #[trigger] has_own_line(
        content,
        requirements_from(content, 0),
        k,
    ) by {
        let p = lemma_requirement_line(content, 0, k);
        assert(alone_on_line(content, requirements_from(content, 0), k, p));
    }
}

/// What a requirements-file declaration is: a PEP 508 requirement of the
/// Python ecosystem in the group `requirements`, read from a line that is
/// neither a comment nor an option, with the name and version specifier of
/// its text, and skipped exactly when that specifier is a direct reference.
pub open spec fn requirement_declaration(d: DependencyModel) -> bool {
    &&& d.syntax == RequirementSyntax::Pep508
    &&& d.ecosystem == Ecosystem::Python
    &&& d.group == "requirements"@
    &&& d.raw.len() > 0
    &&& d.raw[0] != '#'
    &&& d.raw[0] != '-'
    &&& match pep508_model(d.raw) {
        Some((name, s, e)) => d.name == name && d.lookup_name == name && d.requirement
            == d.raw.subrange(s, e),
        None => false,
    }
    &&& d.skip_reason == if is_direct(d.requirement) {
        Some(msg_direct())
    } else {
        None::<Seq<char>>
    }
}

proof fn lemma_requirement_fields(content: Seq<char>, pos: int, k: int)
    requires
        0 <= pos,
        0 <= k < requirements_from(content, pos).len(),
    ensures
        requirement_declaration(requirements_from(content, pos)[k]),
    decreases content.len() - pos,
{
    let end = line_end(content, pos);
    let line = line_body(content.subrange(pos, end));
    let here = opt_seq(text_dependency(line, byte_len(content.take(pos)) as int, "requirements"@));
    assert(requirements_from(content, pos) == here + requirements_from(content, end));
    if k < here.len() {
        lemma_text_expression_in_line(line);
        assert(requirements_from(content, pos)[k] == here[0]);
    } else {
        assert(requirements_from(content, pos)[k] == requirements_from(content, end)[k
            - here.len()]);
        lemma_byte_len_split(content, pos, end);
        lemma_requirement_fields(content, end, k - here.len());
    }
}

/// Every dependency read from a requirements file is a PEP 508
/// declaration of the Python ecosystem in the group `requirements`, taken
/// from a line that is neither a comment nor an option, with the name and
/// version specifier of the text at its span.
pub proof fn requirements_are_pep508_declarations(content: Seq<char>)
    ensures
        forall|k: int|
            0 <= k < requirements_from(content, 0).len() ==> requirement_declaration(
                #[trigger] requirements_from(content, 0)[k],
            ) && span_holds(content, requirements_from(content, 0)[k]),
{
    assert forall|k: int| 0 <= k < requirements_from(content, 0).len() implies requirement_declaration(
        #[trigger] requirements_from(content, 0)[k],
    ) && span_holds(content, requirements_from(content, 0)[k]) by {
        lemma_requirement_fields(content, 0, k);
        lemma_requirement_span(content, 0, k);
    }
}

/// The dependencies one `setup.cfg` line declares (at most one) sit at
/// their spans, within the line.
#[verifier::spinoff_prover]
#[verifier::rlimit(40)]
proof fn lemma_setup_step_span(
    content: Seq<char>,
    pos: int,
    section: Seq<char>,
    active: Option<Seq<char>>,
)
    requires
        0 <= pos < content.len(),
        pos < line_end(content, pos) <= content.len(),
    ensures
        ({
            let end = line_end(content, pos);
            let step = setup_cfg_step(
                line_body(content.subrange(pos, end)),
                byte_len(content.take(pos)) as int,
                section,
                active,
            );
            &&& step.0.len() <= 1
            &&& forall|k: int|
                0 <= k < step.0.len() ==> span_holds(content, #[trigger] step.0[k])
                    && byte_len(content.take(pos)) <= step.0[k].location->start
                    && step.0[k].location->start < step.0[k].location->end
                    && step.0[k].location->end <= byte_len(content.take(end))
        }),
{
    let end = line_end(content, pos);
    let value = line_body(content.subrange(pos, end));
    let offset = byte_len(content.take(pos)) as int;
    lemma_line_body_prefix(content.subrange(pos, end));
    assert(value =~= content.subrange(pos, pos + value.len()));
    lemma_byte_len_split(content, pos, pos + value.len());
    lemma_byte_len_split(content, pos + value.len(), end);
    let step = setup_cfg_step(value, offset, section, active);
    if section_header(trim(value)) is None {
        if value.len() == 0 || !is_ws(value[0]) {
            if let Some((group, inline)) = setup_assignment(value, section) {
                if let Some((st, ex)) = inline {
                    let sp = match first_index(value, '=') {
                        Some(i) => i,
                        None => first_index(value, ':')->0,
                    };
                    lemma_first_index_bounds(value, '=');
                    lemma_first_index_bounds(value, ':');
                    let tail = value.skip(sp + 1);
                    lemma_trim_start_suffix(tail);
                    lemma_trim_end_prefix(trim_start(tail));
                    assert(ex =~= value.subrange(st, st + ex.len()));
                    assert(ex =~= content.subrange(pos + st, pos + st + ex.len()));
                    assert(value.take(st) =~= content.subrange(pos, pos + st));
                    lemma_byte_len_split(content, pos, pos + st);
                    lemma_byte_len_split(content, pos + st + ex.len(), pos + value.len());
                    if text_dependency(ex, offset + byte_len(value.take(st)), group) is Some {
                        lemma_text_dependency_span(content, pos + st, ex, group);
                        lemma_byte_len_split(content, pos, pos + st + ex.len());
                    }
                }
            }
        } else {
            if let Some(g) = active {
                if text_dependency(value, offset, g) is Some {
                    lemma_text_dependency_span(content, pos, value, g);
                }
            }
        }
    }
}

/// Spans of the `setup.cfg` requirements read from the line at `pos` on:
/// each holds its declaration and lies after `pos`.
proof fn lemma_setup_span(
    content: Seq<char>,
    pos: int,
    section: Seq<char>,
    active: Option<Seq<char>>,
    k: int,
)
    requires
        0 <= pos,
        0 <= k < setup_cfg_from(content, pos, section, active).len(),
    ensures
        span_holds(content, setup_cfg_from(content, pos, section, active)[k]),
        byte_len(content.take(pos)) <= setup_cfg_from(
            content,
            pos,
            section,
            active,
        )[k].location->start,
        setup_cfg_from(content, pos, section, active)[k].location->start < setup_cfg_from(
            content,
            pos,
            section,
            active,
        )[k].location->end,
    decreases content.len() - pos,
{
    let end = line_end(content, pos);
    let step = setup_cfg_step(
        line_body(content.subrange(pos, end)),
        byte_len(content.take(pos)) as int,
        section,
        active,
    );
    let rest = setup_cfg_from(content, end, step.1, step.2);
    assert(setup_cfg_from(content, pos, section, active) == step.0 + rest);
    lemma_setup_step_span(content, pos, section, active);
    lemma_byte_len_split(content, pos, end);
    if k < step.0.len() {
        assert(setup_cfg_from(content, pos, section, active)[k] == step.0[k]);
    } else {
        assert(setup_cfg_from(content, pos, section, active)[k] == rest[k - step.0.len()]);
        lemma_setup_span(content, end, step.1, step.2, k - step.0.len());
    }
}

proof fn lemma_setup_ordered(
    content: Seq<char>,
    pos: int,
    section: Seq<char>,
    active: Option<Seq<char>>,
    p: int,
    q: int,
)
    requires
        0 <= pos,
        0 <= p < q < setup_cfg_from(content, pos, section, active).len(),
    ensures
        setup_cfg_from(content, pos, section, active)[p].location->end <= setup_cfg_from(
            content,
            pos,
            section,
            active,
        )[q].location->start,
    decreases content.len() - pos,
{
    let end = line_end(content, pos);
    let step = setup_cfg_step(
        line_body(content.subrange(pos, end)),
        byte_len(content.take(pos)) as int,
        section,
        active,
    );
    let rest = setup_cfg_from(content, end, step.1, step.2);
    let all = setup_cfg_from(content, pos, section, active);
    assert(all == step.0 + rest);
    lemma_setup_step_span(content, pos, section, active);
    let n = step.0.len();
    if p < n {
        assert(all[p] == step.0[p]);
        assert(q >= n);
        assert(all[q] == rest[q - n]);
        lemma_setup_span(content, end, step.1, step.2, q - n);
    } else {
        assert(all[p] == rest[p - n]);
        assert(all[q] == rest[q - n]);
        lemma_setup_ordered(content, end, step.1, step.2, p - n, q - n);
    }
}

/// The spans the `setup.cfg` parser records hold their declarations, in
/// file order and without overlap.
pub proof fn setup_cfg_spans_in_order(content: Seq<char>)
    ensures
        spans_in_order(content, setup_cfg_from(content, 0, seq![], None)),
{
    let deps = setup_cfg_from(content, 0, seq![], None);
    assert forall|k: int| 0 <= k < deps.len() implies span_holds(content, #[trigger] deps[k])
        && deps[k].location->start < deps[k].location->end by {
        lemma_setup_span(content, 0, seq![], None, k);
    }
    assert forall|p: int, q: int| 0 <= p < q < deps.len() implies #[trigger] deps[p].location->end
        <= #[trigger] deps[q].location->start by {
        lemma_setup_ordered(content, 0, seq![], None, p, q);
    }
}

/// The edits of valid updates are the updated dependencies' spans.
proof fn lemma_text_edits_shape(deps: Seq<DependencyModel>, u: Seq<(int, Seq<char>)>)
    requires
        text_edits(deps, u) is Ok,
    ensures
        text_edits(deps, u)->Ok_0.len() == u.len(),
        forall|j: int|
            #![trigger u[j]]
            0 <= j < u.len() ==> 0 <= u[j].0 < deps.len() && deps[u[j].0].location is TextSpan
                && text_edits(deps, u)->Ok_0[j] == (
                deps[u[j].0].location->start,
                deps[u[j].0].location->end,
                u[j].1,
            ),
    decreases u.len(),
{
    if u.len() > 0 {
        lemma_text_edits_shape(deps, u.drop_last());
        assert forall|j: int|
            #![trigger u[j]]
            0 <= j < u.len() implies 0 <= u[j].0 < deps.len() && deps[u[j].0].location is TextSpan
            && text_edits(deps, u)->Ok_0[j] == (
            deps[u[j].0].location->start,
            deps[u[j].0].location->end,
            u[j].1,
        ) by {
            if j < u.len() - 1 {
                assert(u.drop_last()[j] == u[j]);
            }
        }
    }
}

/// Starts that strictly decrease along the sequence.
pub open spec fn strictly_descending(s: Seq<(int, int, Seq<char>)>) -> bool {
    forall|a: int, b: int| 0 <= a < b < s.len() ==> #[trigger] s[a].0 > #[trigger] s[b].0
}

proof fn lemma_insert_desc_strict(sorted: Seq<(int, int, Seq<char>)>, e: (int, int, Seq<char>))
    requires
        strictly_descending(sorted),
        forall|k: int| 0 <= k < sorted.len() ==> #[trigger] sorted[k].0 != e.0,
    ensures
        strictly_descending(insert_desc(sorted, e)),
        insert_desc(sorted, e).len() == sorted.len() + 1,
        forall|j: int|
            0 <= j < insert_desc(sorted, e).len() ==> #[trigger] insert_desc(sorted, e)[j] == e
                || sorted.contains(insert_desc(sorted, e)[j]),
    decreases sorted.len(),
{
    if sorted.len() == 0 {
    } else if sorted[0].0 < e.0 {
        let r = seq![e] + sorted;
        assert forall|j: int| 0 <= j < r.len() implies #[trigger] r[j] == e || sorted.contains(
            r[j],
        ) by {
            if j > 0 {
                assert(r[j] == sorted[j - 1]);
            }
        }
        assert forall|a: int, b: int| 0 <= a < b < r.len() implies #[trigger] r[a].0
            > #[trigger] r[b].0 by {
            if a > 0 {
                assert(r[a] == sorted[a - 1]);
            }
            assert(r[b] == sorted[b - 1]);
        }
    } else {
        let rest = sorted.drop_first();
        assert forall|k: int| 0 <= k < rest.len() implies #[trigger] rest[k].0 != e.0 by {
            assert(rest[k] == sorted[k + 1]);
        }
        assert forall|a: int, b: int| 0 <= a < b < rest.len() implies #[trigger] rest[a].0
            > #[trigger] rest[b].0 by {
            assert(rest[a] == sorted[a + 1]);
            assert(rest[b] == sorted[b + 1]);
        }
        lemma_insert_desc_strict(rest, e);
        let tail = insert_desc(rest, e);
        let r = seq![sorted[0]] + tail;
        assert(sorted[0].0 > e.0);
        assert forall|j: int| 0 <= j < r.len() implies #[trigger] r[j] == e || sorted.contains(
            r[j],
        ) by {
            if j == 0 {
                assert(sorted[0] == r[0]);
            } else {
                assert(r[j] == tail[j - 1]);
                if tail[j - 1] != e {
                    let i = choose|i: int| 0 <= i < rest.len() && rest[i] == tail[j - 1];
                    assert(sorted[i + 1] == rest[i]);
                }
            }
        }
        assert forall|a: int, b: int| 0 <= a < b < r.len() implies #[trigger] r[a].0
            > #[trigger] r[b].0 by {
            assert(r[b] == tail[b - 1]);
            if a > 0 {
                assert(r[a] == tail[a - 1]);
            } else {
                if tail[b - 1] != e {
                    let i = choose|i: int| 0 <= i < rest.len() && rest[i] == tail[b - 1];
                    assert(sorted[i + 1] == rest[i]);
                }
            }
        }
    }
}

/// Sorting edits with distinct starts gives strictly descending starts, and
/// only edits from the input.
proof fn lemma_sort_desc_strict(edits: Seq<(int, int, Seq<char>)>)
    requires
        forall|a: int, b: int|
            0 <= a < b < edits.len() ==> #[trigger] edits[a].0 != #[trigger] edits[b].0,
    ensures
        strictly_descending(sort_desc(edits)),
        sort_desc(edits).len() == edits.len(),
        forall|j: int|
            0 <= j < sort_desc(edits).len() ==> edits.contains(#[trigger] sort_desc(edits)[j]),
    decreases edits.len(),
{
    if edits.len() > 0 {
        let init = edits.drop_last();
        assert forall|a: int, b: int| 0 <= a < b < init.len() implies #[trigger] init[a].0
            != #[trigger] init[b].0 by {
            assert(init[a] == edits[a] && init[b] == edits[b]);
        }
        lemma_sort_desc_strict(init);
        let sorted = sort_desc(init);
        let e = edits.last();
        assert forall|k: int| 0 <= k < sorted.len() implies #[trigger] sorted[k].0 != e.0 by {
            assert(init.contains(sorted[k]));
            let i = choose|i: int| 0 <= i < init.len() && init[i] == sorted[k];
            assert(edits[i] == init[i]);
            assert(edits[i].0 != edits[edits.len() - 1].0);
        }
        lemma_insert_desc_strict(sorted, e);
        assert forall|j: int| 0 <= j < sort_desc(edits).len() implies edits.contains(
            #[trigger] sort_desc(edits)[j],
        ) by {
            let x = sort_desc(edits)[j];
            if x == e {
                assert(edits[edits.len() - 1] == x);
            } else {
                assert(sorted.contains(x));
                let k = choose|k: int| 0 <= k < sorted.len() && sorted[k] == x;
                assert(init.contains(sorted[k]));
                let i = choose|i: int| 0 <= i < init.len() && init[i] == x;
                assert(edits[i] == x);
            }
        }
    }
}

/// A character index below a shared prefix is the same in both texts.
proof fn lemma_char_index_shared_prefix(t: Seq<char>, w: Seq<char>, n: int, x: int, i: int)
    requires
        0 <= i <= n <= t.len(),
        n <= w.len(),
        t.take(n) == w.take(n),
        x <= byte_len(t.take(n)),
    ensures
        char_index_from(t, x, i) == char_index_from(w, x, i),
    decreases n - i,
{
    assert(t.take(i) =~= t.take(n).take(i));
    assert(w.take(i) =~= w.take(n).take(i));
    if i < n && byte_len(t.take(i)) < x {
        lemma_char_index_shared_prefix(t, w, n, x, i + 1);
    }
}

/// A longer prefix never has fewer bytes.
proof fn lemma_prefix_index_monotone(text: Seq<char>, i: int, j: int)
    requires
        0 <= i <= text.len(),
        0 <= j <= text.len(),
        byte_len(text.take(i)) <= byte_len(text.take(j)),
    ensures
        i <= j,
{
    if i > j {
        lemma_byte_len_split(text, j, i);
        lemma_byte_len_at_least_len(text.subrange(j, i));
    }
}

/// Splicing into `p + q` spans that lie in `p` splices `p` and keeps `q`.
proof fn lemma_splice_prefix(p: Seq<char>, q: Seq<char>, spans: Seq<(int, int, Seq<char>)>)
    requires
        spans.len() > 0 ==> 0 <= spans[0].0 <= spans[0].1 <= p.len(),
    ensures
        splice_desc(p + q, spans) == splice_desc(p, spans) + q,
{
    if spans.len() > 0 {
        let (x, y, r) = spans[0];
        let inner = splice_desc(p.take(x), spans.drop_first());
        assert((p + q).take(x) =~= p.take(x));
        assert((p + q).skip(y) =~= p.skip(y) + q);
        assert(inner + r + (p.skip(y) + q) =~= inner + r + p.skip(y) + q);
    }
}

/// Edits that each fit the text, each ending before the start of every
/// edit applied before it, replace their spans and keep everything else,
/// in order.
pub proof fn fitting_edits_splice(text: Seq<char>, edits: Seq<(int, int, Seq<char>)>)
    requires
        forall|j: int|
            #![trigger edits[j]]
            0 <= j < edits.len() ==> edits[j].0 <= edits[j].1 && char_index(text, edits[j].0)
                is Some && char_index(text, edits[j].1) is Some && char_index(
                text,
                edits[j].0,
            )->0 <= char_index(text, edits[j].1)->0,
        forall|a: int, b: int|
            0 <= a < b < edits.len() ==> #[trigger] edits[b].1 <= #[trigger] edits[a].0,
    ensures
        apply_edits(text, edits) == Some(splice_desc(text, char_spans(text, edits))),
    decreases edits.len(),
{
    if edits.len() == 0 {
        assert(char_spans(text, edits).len() == 0);
    } else {
        let e = edits[0];
        let a = char_index(text, e.0)->0;
        let b = char_index(text, e.1)->0;
        lemma_char_index_found(text, e.0);
        lemma_char_index_found(text, e.1);
        let t1 = text.take(a) + e.2 + text.skip(b);
        assert(replace_bytes(text, e.0, e.1, e.2) == Some(t1));
        let rest = edits.drop_first();
        assert(t1.take(a) =~= text.take(a));
        assert forall|j: int|
            #![trigger rest[j]]
            0 <= j < rest.len() implies rest[j].0 <= rest[j].1 && char_index(t1, rest[j].0)
            is Some && char_index(t1, rest[j].1) is Some && char_index(t1, rest[j].0)->0
            <= char_index(t1, rest[j].1)->0 && char_span(t1, rest[j]) == char_span(text, rest[j]) by {
            assert(rest[j] == edits[j + 1]);
            assert(edits[j + 1].1 <= edits[0].0);
            lemma_char_index_shared_prefix(text, t1, a, rest[j].0, 0);
            lemma_char_index_shared_prefix(text, t1, a, rest[j].1, 0);
        }
        assert forall|x: int, y: int| 0 <= x < y < rest.len() implies #[trigger] rest[y].1
            <= #[trigger] rest[x].0 by {
            assert(rest[x] == edits[x + 1] && rest[y] == edits[y + 1]);
        }
        fitting_edits_splice(t1, rest);
        let spans = char_spans(text, rest);
        assert(char_spans(t1, rest) =~= spans);
        assert(char_spans(text, edits).drop_first() =~= spans);
        assert(char_spans(text, edits)[0] == (a, b, e.2));
        if rest.len() > 0 {
            assert(rest[0] == edits[1]);
            assert(edits[1].1 <= edits[0].0);
            lemma_char_index_found(text, rest[0].0);
            lemma_char_index_found(text, rest[0].1);
            lemma_prefix_index_monotone(text, char_index(text, rest[0].1)->0, a);
        }
        assert(t1 =~= text.take(a) + (e.2 + text.skip(b)));
        lemma_splice_prefix(text.take(a), e.2 + text.skip(b), spans);
        let inner = splice_desc(text.take(a), spans);
        assert(inner + (e.2 + text.skip(b)) =~= inner + e.2 + text.skip(b));
    }
}

/// Splicing into a text each span's own characters gives back the text.
proof fn lemma_splice_identity(text: Seq<char>, spans: Seq<(int, int, Seq<char>)>)
    requires
        forall|j: int|
            #![trigger spans[j]]
            0 <= j < spans.len() ==> 0 <= spans[j].0 <= spans[j].1 <= text.len() && spans[j].2
                == text.subrange(spans[j].0, spans[j].1),
        forall|a: int, b: int|
            0 <= a < b < spans.len() ==> #[trigger] spans[b].1 <= #[trigger] spans[a].0,
    ensures
        splice_desc(text, spans) == text,
    decreases spans.len(),
{
    if spans.len() > 0 {
        let (x, y, r) = spans[0];
        let rest = spans.drop_first();
        let p = text.take(x);
        assert forall|j: int|
            #![trigger rest[j]]
            0 <= j < rest.len() implies 0 <= rest[j].0 <= rest[j].1 <= p.len() && rest[j].2
            == p.subrange(rest[j].0, rest[j].1) by {
            assert(rest[j] == spans[j + 1]);
            assert(spans[j + 1].1 <= spans[0].0);
            assert(p.subrange(rest[j].0, rest[j].1) =~= text.subrange(rest[j].0, rest[j].1));
        }
        assert forall|a: int, b: int| 0 <= a < b < rest.len() implies #[trigger] rest[b].1
            <= #[trigger] rest[a].0 by {
            assert(rest[a] == spans[a + 1] && rest[b] == spans[b + 1]);
        }
        lemma_splice_identity(p, rest);
        assert(p + r + text.skip(y) =~= text);
    }
}

/// What `char_index` finds is an index with that byte offset.
proof fn lemma_char_index_found(text: Seq<char>, x: int)
    ensures
        char_index(text, x) matches Some(i) ==> 0 <= i <= text.len() && byte_len(text.take(i)) == x,
{
    lemma_char_index_from_found(text, x, 0);
}

proof fn lemma_char_index_from_found(text: Seq<char>, x: int, i: int)
    ensures
        char_index_from(text, x, i) matches Some(k) ==> 0 <= k <= text.len() && byte_len(
            text.take(k),
        ) == x,
    decreases text.len() + 1 - i,
{
    if 0 <= i <= text.len() && byte_len(text.take(i)) < x {
        lemma_char_index_from_found(text, x, i + 1);
    }
}

/// The edits of different declarations of a parsed text manifest, sorted
/// from the end of the file, each fit the text and each end before the
/// start of the one sorted before it.
proof fn lemma_sorted_edits(content: Seq<char>, deps: Seq<DependencyModel>, u: Seq<(int, Seq<char>)>)
    requires
        spans_in_order(content, deps),
        forall|j: int| 0 <= j < u.len() ==> 0 <= #[trigger] u[j].0 < deps.len(),
        forall|a: int, b: int| 0 <= a < b < u.len() ==> #[trigger] u[a].0 != #[trigger] u[b].0,
    ensures
        text_edits(deps, u) is Ok,
        ({
            let sorted = sort_desc(text_edits(deps, u)->Ok_0);
            &&& forall|j: int|
                #![trigger sorted[j]]
                0 <= j < sorted.len() ==> sorted[j].0 <= sorted[j].1 && char_index(
                    content,
                    sorted[j].0,
                ) is Some && char_index(content, sorted[j].1) is Some && char_index(
                    content,
                    sorted[j].0,
                )->0 <= char_index(content, sorted[j].1)->0 && (exists|i: int|
                    0 <= i < u.len() && sorted[j] == (
                        deps[u[i].0].location->start,
                        deps[u[i].0].location->end,
                        u[i].1,
                    ) && span_holds(content, deps[u[i].0]))
            &&& forall|x: int, y: int|
                0 <= x < y < sorted.len() ==> #[trigger] sorted[y].1 <= #[trigger] sorted[x].0
        }),
{
    assert forall|j: int| 0 <= j < u.len() implies 0 <= #[trigger] u[j].0 < deps.len()
        && deps[u[j].0].location is TextSpan by {
        assert(span_holds(content, deps[u[j].0]));
    }
    lemma_text_edits_ok(deps, u);
    lemma_text_edits_shape(deps, u);
    let edits = text_edits(deps, u)->Ok_0;
    // Different declarations have different starts.
    assert forall|a: int, b: int| 0 <= a < b < edits.len() implies #[trigger] edits[a].0
        != #[trigger] edits[b].0 by {
        let (p, q) = (u[a].0, u[b].0);
        assert(deps[p].location->start < deps[p].location->end);
        assert(deps[q].location->start < deps[q].location->end);
        if p < q {
            assert(deps[p].location->end <= deps[q].location->start);
        } else {
            assert(deps[q].location->end <= deps[p].location->start);
        }
    }
    lemma_sort_desc_strict(edits);
    let sorted = sort_desc(edits);
    // Each sorted edit is the span of some updated declaration.
    assert forall|j: int|
        #![trigger sorted[j]]
        0 <= j < sorted.len() implies sorted[j].0 <= sorted[j].1 && char_index(
        content,
        sorted[j].0,
    ) is Some && char_index(content, sorted[j].1) is Some && char_index(content, sorted[j].0)->0
        <= char_index(content, sorted[j].1)->0 && (exists|i: int|
        0 <= i < u.len() && sorted[j] == (
            deps[u[i].0].location->start,
            deps[u[i].0].location->end,
            u[i].1,
        ) && span_holds(content, deps[u[i].0])) by {
        assert(edits.contains(sorted[j]));
        let i = choose|i: int| 0 <= i < edits.len() && edits[i] == sorted[j];
        let p = u[i].0;
        assert(span_holds(content, deps[p]));
        assert(deps[p].location->start < deps[p].location->end);
        assert(sorted[j] == edits[i]);
        assert(edits[i] == (deps[u[i].0].location->start, deps[u[i].0].location->end, u[i].1));
    }
    assert forall|x: int, y: int| 0 <= x < y < sorted.len() implies #[trigger] sorted[y].1
        <= #[trigger] sorted[x].0 by {
        assert(edits.contains(sorted[x]) && edits.contains(sorted[y]));
        let i = choose|i: int| 0 <= i < edits.len() && edits[i] == sorted[x];
        let k = choose|k: int| 0 <= k < edits.len() && edits[k] == sorted[y];
        let (p, q) = (u[i].0, u[k].0);
        assert(sorted[x].0 > sorted[y].0);
        assert(deps[p].location->start < deps[p].location->end);
        assert(deps[q].location->start < deps[q].location->end);
        if p < q {
            assert(deps[p].location->end <= deps[q].location->start);
            assert(false);
        } else if p == q {
            assert(false);
        } else {
            assert(deps[q].location->end <= deps[p].location->start);
        }
    }
}

/// Rewriting several different declarations of a parsed text manifest
/// replaces each declaration's span by its new text and keeps every other
/// character, in order: the edits, sorted from the end of the file, are
/// spliced into the text at their spans.
pub proof fn distinct_text_updates_replace_their_spans(
    content: Seq<char>,
    deps: Seq<DependencyModel>,
    u: Seq<(int, Seq<char>)>,
)
    requires
        spans_in_order(content, deps),
        forall|j: int| 0 <= j < u.len() ==> 0 <= #[trigger] u[j].0 < deps.len(),
        forall|a: int, b: int| 0 <= a < b < u.len() ==> #[trigger] u[a].0 != #[trigger] u[b].0,
    ensures
        text_edits(deps, u) is Ok,
        spec_render_text(content, deps, u) == Ok::<Option<Seq<char>>, Seq<char>>(
            Some(splice_desc(content, char_spans(content, sort_desc(text_edits(deps, u)->Ok_0)))),
        ),
{
    lemma_sorted_edits(content, deps, u);
    fitting_edits_splice(content, sort_desc(text_edits(deps, u)->Ok_0));
}

/// Updates of text declarations whose spans are non-empty, lie on
/// character boundaries of the text and do not overlap one another.
pub open spec fn disjoint_text_updates(
    content: Seq<char>,
    deps: Seq<DependencyModel>,
    u: Seq<(int, Seq<char>)>,
) -> bool {
    &&& forall|j: int|
        #![trigger u[j]]
        0 <= j < u.len() ==> 0 <= u[j].0 < deps.len() && deps[u[j].0].location is TextSpan
            && deps[u[j].0].location->start < deps[u[j].0].location->end && char_index(
            content,
            deps[u[j].0].location->start,
        ) is Some && char_index(content, deps[u[j].0].location->end) is Some
    &&& forall|a: int, b: int|
        0 <= a < b < u.len() ==> #[trigger] deps[u[a].0].location->end <= #[trigger] deps[u[
            b].0].location->start || deps[u[b].0].location->end <= deps[u[a].0].location->start
}

/// The edits of disjoint text updates, sorted from the end of the text, fit
/// the text.
proof fn lemma_disjoint_edits_fit(
    content: Seq<char>,
    deps: Seq<DependencyModel>,
    u: Seq<(int, Seq<char>)>,
)
    requires
        disjoint_text_updates(content, deps, u),
    ensures
        text_edits(deps, u) is Ok,
        edits_fit_desc(content, sort_desc(text_edits(deps, u)->Ok_0)),
        forall|j: int|
            0 <= j < sort_desc(text_edits(deps, u)->Ok_0).len() ==> exists|i: int|
                0 <= i < u.len() && #[trigger] sort_desc(text_edits(deps, u)->Ok_0)[j] == (
                    deps[u[i].0].location->start,
                    deps[u[i].0].location->end,
                    u[i].1,
                ),
{
    lemma_text_edits_ok(deps, u);
    lemma_text_edits_shape(deps, u);
    let edits = text_edits(deps, u)->Ok_0;
    assert forall|a: int, b: int| 0 <= a < b < edits.len() implies #[trigger] edits[a].0
        != #[trigger] edits[b].0 by {
        assert(u[a] == u[a] && u[b] == u[b]);
    }
    lemma_sort_desc_strict(edits);
    let sorted = sort_desc(edits);
    assert forall|j: int|
        #![trigger sorted[j]]
        0 <= j < sorted.len() implies sorted[j].0 <= sorted[j].1 && char_index(
        content,
        sorted[j].0,
    ) is Some && char_index(content, sorted[j].1) is Some && char_index(content, sorted[j].0)->0
        <= char_index(content, sorted[j].1)->0 && (exists|i: int|
        0 <= i < u.len() && sorted[j] == (
            deps[u[i].0].location->start,
            deps[u[i].0].location->end,
            u[i].1,
        )) by {
        assert(edits.contains(sorted[j]));
        let i = choose|i: int| 0 <= i < edits.len() && edits[i] == sorted[j];
        assert(u[i] == u[i]);
        assert(edits[i] == (deps[u[i].0].location->start, deps[u[i].0].location->end, u[i].1));
        lemma_char_index_found(content, sorted[j].0);
        lemma_char_index_found(content, sorted[j].1);
        lemma_prefix_index_monotone(
            content,
            char_index(content, sorted[j].0)->0,
            char_index(content, sorted[j].1)->0,
        );
    }
    assert forall|x: int, y: int| 0 <= x < y < sorted.len() implies #[trigger] sorted[y].1
        <= #[trigger] sorted[x].0 by {
        assert(edits.contains(sorted[x]) && edits.contains(sorted[y]));
        let i = choose|i: int| 0 <= i < edits.len() && edits[i] == sorted[x];
        let k = choose|k: int| 0 <= k < edits.len() && edits[k] == sorted[y];
        assert(u[i] == u[i] && u[k] == u[k]);
        assert(sorted[x].0 > sorted[y].0);
        if i < k {
            assert(deps[u[i].0].location->end <= deps[u[k].0].location->start
                || deps[u[k].0].location->end <= deps[u[i].0].location->start);
        } else if i > k {
            assert(deps[u[k].0].location->end <= deps[u[i].0].location->start
                || deps[u[i].0].location->end <= deps[u[k].0].location->start);
        }
    }
}

/// Rendering text updates whose spans are non-empty, lie on character
/// boundaries and do not overlap replaces each span by its update's text
/// and keeps every other character, in order: the edits, taken from the
/// end of the text, are spliced in at their spans.
pub proof fn disjoint_text_updates_replace_their_spans(
    content: Seq<char>,
    deps: Seq<DependencyModel>,
    u: Seq<(int, Seq<char>)>,
)
    requires
        disjoint_text_updates(content, deps, u),
    ensures
        text_edits(deps, u) is Ok,
        spec_render_text(content, deps, u) == Ok::<Option<Seq<char>>, Seq<char>>(
            Some(splice_desc(content, char_spans(content, sort_desc(text_edits(deps, u)->Ok_0)))),
        ),
{
    lemma_disjoint_edits_fit(content, deps, u);
    fitting_edits_splice(content, sort_desc(text_edits(deps, u)->Ok_0));
}

/// Rendering disjoint text updates that each write back the text already at
/// their span gives back the text unchanged.
pub proof fn disjoint_updates_with_their_own_text_change_nothing(
    content: Seq<char>,
    deps: Seq<DependencyModel>,
    u: Seq<(int, Seq<char>)>,
)
    requires
        disjoint_text_updates(content, deps, u),
        forall|j: int|
            0 <= j < u.len() ==> #[trigger] u[j].1 == content.subrange(
                char_index(content, deps[u[j].0].location->start)->0,
                char_index(content, deps[u[j].0].location->end)->0,
            ),
    ensures
        spec_render_text(content, deps, u) == Ok::<Option<Seq<char>>, Seq<char>>(Some(content)),
{
    disjoint_text_updates_replace_their_spans(content, deps, u);
    lemma_disjoint_edits_fit(content, deps, u);
    let sorted = sort_desc(text_edits(deps, u)->Ok_0);
    let spans = char_spans(content, sorted);
    assert forall|j: int|
        #![trigger spans[j]]
        0 <= j < spans.len() implies 0 <= spans[j].0 <= spans[j].1 <= content.len() && spans[j].2
        == content.subrange(spans[j].0, spans[j].1) by {
        assert(sorted[j] == sorted[j]);
        let i = choose|i: int|
            0 <= i < u.len() && sorted[j] == (
                deps[u[i].0].location->start,
                deps[u[i].0].location->end,
                u[i].1,
            );
        assert(spans[j] == char_span(content, sorted[j]));
        lemma_char_index_found(content, sorted[j].0);
        lemma_char_index_found(content, sorted[j].1);
        assert(u[i].1 == content.subrange(
            char_index(content, deps[u[i].0].location->start)->0,
            char_index(content, deps[u[i].0].location->end)->0,
        ));
    }
    assert forall|a: int, b: int| 0 <= a < b < spans.len() implies #[trigger] spans[b].1
        <= #[trigger] spans[a].0 by {
        assert(spans[a] == char_span(content, sorted[a]));
        assert(spans[b] == char_span(content, sorted[b]));
        assert(sorted[b].1 <= sorted[a].0);
        lemma_char_index_found(content, sorted[a].0);
        lemma_char_index_found(content, sorted[b].1);
        lemma_prefix_index_monotone(content, spans[b].1, spans[a].0);
    }
    lemma_splice_identity(content, spans);
}

/// Rewriting several different declarations of a parsed text manifest
/// always fits: the edits are applied from the end of the file, so no edit
/// moves the byte offsets of a declaration still to be rewritten.
pub proof fn distinct_text_updates_fit(
    content: Seq<char>,
    deps: Seq<DependencyModel>,
    u: Seq<(int, Seq<char>)>,
)
    requires
        spans_in_order(content, deps),
        forall|j: int| 0 <= j < u.len() ==> 0 <= #[trigger] u[j].0 < deps.len(),
        forall|a: int, b: int| 0 <= a < b < u.len() ==> #[trigger] u[a].0 != #[trigger] u[b].0,
    ensures
        text_edits_fit(content, deps, u),
{
    distinct_text_updates_replace_their_spans(content, deps, u);
}

/// Rewriting several different declarations of a parsed text manifest, each
/// with its own text, gives back the manifest unchanged.
pub proof fn rewriting_declarations_with_themselves_changes_nothing(
    content: Seq<char>,
    deps: Seq<DependencyModel>,
    u: Seq<(int, Seq<char>)>,
)
    requires
        spans_in_order(content, deps),
        forall|j: int| 0 <= j < u.len() ==> 0 <= #[trigger] u[j].0 < deps.len(),
        forall|a: int, b: int| 0 <= a < b < u.len() ==> #[trigger] u[a].0 != #[trigger] u[b].0,
        forall|j: int| 0 <= j < u.len() ==> #[trigger] u[j].1 == deps[u[j].0].raw,
    ensures
        spec_render_text(content, deps, u) == Ok::<Option<Seq<char>>, Seq<char>>(Some(content)),
{
    distinct_text_updates_replace_their_spans(content, deps, u);
    lemma_sorted_edits(content, deps, u);
    let sorted = sort_desc(text_edits(deps, u)->Ok_0);
    let spans = char_spans(content, sorted);
    assert forall|j: int|
        #![trigger spans[j]]
        0 <= j < spans.len() implies 0 <= spans[j].0 <= spans[j].1 <= content.len() && spans[j].2
        == content.subrange(spans[j].0, spans[j].1) by {
        let i = choose|i: int|
            0 <= i < u.len() && sorted[j] == (
                deps[u[i].0].location->start,
                deps[u[i].0].location->end,
                u[i].1,
            ) && span_holds(content, deps[u[i].0]);
        assert(spans[j] == char_span(content, sorted[j]));
        lemma_char_index_found(content, sorted[j].0);
        assert(u[i].1 == deps[u[i].0].raw);
    }
    assert forall|a: int, b: int| 0 <= a < b < spans.len() implies #[trigger] spans[b].1
        <= #[trigger] spans[a].0 by {
        assert(spans[a] == char_span(content, sorted[a]));
        assert(spans[b] == char_span(content, sorted[b]));
        assert(sorted[b].1 <= sorted[a].0);
        lemma_char_index_found(content, sorted[a].0);
        lemma_char_index_found(content, sorted[b].1);
        lemma_prefix_index_monotone(content, spans[b].1, spans[a].0);
    }
    lemma_splice_identity(content, spans);
}

/// Rewriting several different declarations of a parsed requirements file
/// or `setup.cfg` never fails to fit the text.
pub proof fn parsed_text_manifest_updates_fit(content: Seq<char>, u: Seq<(int, Seq<char>)>)
    ensures
        (forall|j: int| 0 <= j < u.len() ==> 0 <= #[trigger] u[j].0 < requirements_from(content, 0).len())
            && (forall|a: int, b: int| 0 <= a < b < u.len() ==> #[trigger] u[a].0 != #[trigger] u[b].0)
            ==> text_edits_fit(content, requirements_from(content, 0), u),
        (forall|j: int|
            0 <= j < u.len() ==> 0 <= #[trigger] u[j].0 < setup_cfg_from(content, 0, seq![], None).len())
            && (forall|a: int, b: int| 0 <= a < b < u.len() ==> #[trigger] u[a].0 != #[trigger] u[b].0)
            ==> text_edits_fit(content, setup_cfg_from(content, 0, seq![], None), u),
{
    requirement_spans_in_order(content);
    setup_cfg_spans_in_order(content);
    if (forall|j: int| 0 <= j < u.len() ==> 0 <= #[trigger] u[j].0 < requirements_from(content, 0).len())
        && (forall|a: int, b: int| 0 <= a < b < u.len() ==> #[trigger] u[a].0 != #[trigger] u[b].0) {
        distinct_text_updates_fit(content, requirements_from(content, 0), u);
    }
    if (forall|j: int|
        0 <= j < u.len() ==> 0 <= #[trigger] u[j].0 < setup_cfg_from(content, 0, seq![], None).len())
        && (forall|a: int, b: int| 0 <= a < b < u.len() ==> #[trigger] u[a].0 != #[trigger] u[b].0) {
        distinct_text_updates_fit(content, setup_cfg_from(content, 0, seq![], None), u);
    }
}

/// Updates that each name a declaration with a text span give edits.
proof fn lemma_text_edits_ok(deps: Seq<DependencyModel>, u: Seq<(int, Seq<char>)>)
    requires
        forall|j: int|
            0 <= j < u.len() ==> 0 <= #[trigger] u[j].0 < deps.len() && deps[u[j].0].location is TextSpan,
    ensures
        text_edits(deps, u) is Ok,
    decreases u.len(),
{
    if u.len() > 0 {
        assert forall|j: int| 0 <= j < u.drop_last().len() implies 0 <= #[trigger] u.drop_last()[
            j
        ].0 < deps.len() && deps[u.drop_last()[j].0].location is TextSpan by {
            assert(u.drop_last()[j] == u[j]);
        }
        lemma_text_edits_ok(deps, u.drop_last());
        assert(u.last() == u[u.len() - 1]);
    }
}

proof fn lemma_selected_members(names: Seq<Seq<char>>, deps: Seq<DependencyModel>)
    ensures
        forall|k: int|
            0 <= k < selected(names, deps).len() ==> deps.contains(#[trigger] selected(names, deps)[k]),
    decreases deps.len(),
{
    if deps.len() > 0 {
        let init = deps.drop_last();
        lemma_selected_members(names, init);
        assert forall|k: int|
            0 <= k < selected(names, deps).len() implies deps.contains(
            #[trigger] selected(names, deps)[k],
        ) by {
            let x = selected(names, deps)[k];
            if k < selected(names, init).len() {
                assert(x == selected(names, init)[k]);
                assert(init.contains(x));
                let i = choose|i: int| 0 <= i < init.len() && init[i] == x;
                assert(deps[i] == x);
            } else {
                assert(x == deps[deps.len() - 1]);
            }
        }
    }
}

/// Keeping only the selected packages keeps the spans of the remaining
/// declarations valid and in order, so they can still be rewritten.
pub proof fn filtering_keeps_spans_in_order(
    content: Seq<char>,
    names: Seq<Seq<char>>,
    deps: Seq<DependencyModel>,
)
    requires
        spans_in_order(content, deps),
    ensures
        spans_in_order(content, selected(names, deps)),
    decreases deps.len(),
{
    if deps.len() > 0 {
        let init = deps.drop_last();
        assert forall|k: int| 0 <= k < init.len() implies span_holds(content, #[trigger] init[k])
            && init[k].location->start < init[k].location->end by {
            assert(init[k] == deps[k]);
        }
        assert forall|p: int, q: int| 0 <= p < q < init.len() implies #[trigger] init[p].location->end
            <= #[trigger] init[q].location->start by {
            assert(init[p] == deps[p] && init[q] == deps[q]);
        }
        filtering_keeps_spans_in_order(content, names, init);
        lemma_selected_members(names, init);
        let sel = selected(names, init);
        if selects(names, deps.last()) {
            let all = sel.push(deps.last());
            assert(deps.last() == deps[deps.len() - 1]);
            assert forall|k: int| 0 <= k < all.len() implies span_holds(content, #[trigger] all[k])
                && all[k].location->start < all[k].location->end by {
                if k < sel.len() {
                    assert(all[k] == sel[k]);
                }
            }
            assert forall|p: int, q: int| 0 <= p < q < all.len() implies #[trigger] all[p].location->end
                <= #[trigger] all[q].location->start by {
                assert(all[p] == sel[p]);
                if q < sel.len() {
                    assert(all[q] == sel[q]);
                } else {
                    assert(init.contains(sel[p]));
                    let i = choose|i: int| 0 <= i < init.len() && init[i] == sel[p];
                    assert(deps[i] == init[i]);
                }
            }
        }
    }
}

/// Rewriting one declaration of a parsed text manifest writes the new text
/// where the declaration was: the rendered text reads the replacement at the
/// declaration's place, and the text before and after it as it was.
pub proof fn text_update_reads_back(
    content: Seq<char>,
    deps: Seq<DependencyModel>,
    i: int,
    rep: Seq<char>,
)
    requires
        spans_in_order(content, deps),
        0 <= i < deps.len(),
    ensures
        ({
            let a = char_index(content, deps[i].location->start)->0;
            let b = char_index(content, deps[i].location->end)->0;
            &&& content.subrange(a, b) == deps[i].raw
            &&& spec_render_text(content, deps, seq![(i, rep)]) matches Ok(Some(t))
            &&& t.take(a) == content.take(a)
            &&& t.subrange(a, a + rep.len()) == rep
            &&& t.skip(a + rep.len()) == content.skip(b)
        }),
{
    assert(span_holds(content, deps[i]));
    text_update_replaces_only_its_span(content, deps, i, rep);
    let a = char_index(content, deps[i].location->start)->0;
    let b = char_index(content, deps[i].location->end)->0;
    lemma_char_index_found(content, deps[i].location->start);
    lemma_char_index_found(content, deps[i].location->end);
    assert(0 <= a <= b <= content.len());
    let t = content.take(a) + rep + content.skip(b);
    assert(t.take(a) =~= content.take(a));
    assert(t.subrange(a, a + rep.len()) =~= rep);
    assert(t.skip(a + rep.len()) =~= content.skip(b));
}

/// Rewriting a declaration of a parsed text manifest with its own text
/// gives back the manifest unchanged.
pub proof fn rewriting_a_declaration_with_itself_changes_nothing(
    content: Seq<char>,
    deps: Seq<DependencyModel>,
    i: int,
)
    requires
        spans_in_order(content, deps),
        0 <= i < deps.len(),
    ensures
        spec_render_text(content, deps, seq![(i, deps[i].raw)]) == Ok::<
            Option<Seq<char>>,
            Seq<char>,
        >(Some(content)),
{
    text_update_reads_back(content, deps, i, deps[i].raw);
    text_update_replaces_only_its_span(content, deps, i, deps[i].raw);
    let a = char_index(content, deps[i].location->start)->0;
    let b = char_index(content, deps[i].location->end)->0;
    lemma_char_index_found(content, deps[i].location->start);
    lemma_char_index_found(content, deps[i].location->end);
    assert(content.take(a) + deps[i].raw + content.skip(b) =~= content);
    assert(replace_bytes(content, deps[i].location->start, deps[i].location->end, deps[i].raw)
        == Some(content));
}

// ---------------------------------------------------------------------------
// TOML locations
// ---------------------------------------------------------------------------

/// Every dependency is located in a TOML document.
pub open spec fn all_toml_located(ds: Seq<DependencyModel>) -> bool {
    forall|k: int| 0 <= k < ds.len() ==> is_toml_location(#[trigger] ds[k].location)
}

proof fn lemma_all_toml_concat(a: Seq<DependencyModel>, b: Seq<DependencyModel>)
    requires
        all_toml_located(a),
        all_toml_located(b),
    ensures
        all_toml_located(a + b),
{
    assert forall|k: int| 0 <= k < (a + b).len() implies is_toml_location(
        #[trigger] (a + b)[k].location,
    ) by {
        if k < a.len() {
            assert((a + b)[k] == a[k]);
        } else {
            assert((a + b)[k] == b[k - a.len()]);
        }
    }
}

proof fn lemma_pep508_values_located(
    vals: Seq<TomlView>,
    path: Seq<Seq<char>>,
    group: Seq<char>,
    n: int,
)
    ensures
        pep508_values(vals, path, group, n) matches Ok(ds) ==> all_toml_located(ds),
    decreases n,
{
    if 0 < n <= vals.len() {
        lemma_pep508_values_located(vals, path, group, n - 1);
        if let Ok(prev) = pep508_values(vals, path, group, n - 1) {
            if let Ok(ds) = pep508_values(vals, path, group, n) {
                assert forall|k: int| 0 <= k < ds.len() implies is_toml_location(
                    #[trigger] ds[k].location,
                ) by {
                    if k < prev.len() {
                        assert(ds[k] == prev[k]);
                    }
                }
            }
        }
    }
}

proof fn lemma_pep508_groups_located(
    top: Entries,
    base: Seq<Seq<char>>,
    prefix: Seq<char>,
    keys: Seq<Seq<char>>,
)
    ensures
        pep508_groups(top, base, prefix, keys) matches Ok(ds) ==> all_toml_located(ds),
    decreases keys.len(),
{
    if keys.len() > 0 {
        lemma_pep508_groups_located(top, base, prefix, keys.drop_last());
        let path = base.push(keys.last());
        if let Some(TomlView::Array(vals)) = path_item(top, path) {
            lemma_pep508_values_located(vals, path, prefix + keys.last(), vals.len() as int);
        }
        if let Ok(prev) = pep508_groups(top, base, prefix, keys.drop_last()) {
            if let Ok(d) = pep508_array_deps(top, path, prefix + keys.last()) {
                lemma_all_toml_concat(prev, d);
            }
        }
    }
}

proof fn lemma_python_entries_located(
    es: Entries,
    path: Seq<Seq<char>>,
    group: Seq<char>,
    n: int,
)
    ensures
        all_toml_located(python_entries(es, path, group, n)),
    decreases n,
{
    if 0 < n <= es.len() {
        lemma_python_entries_located(es, path, group, n - 1);
        let here = opt_seq(python_entry(es[n - 1].0, es[n - 1].1, path, group));
        assert(all_toml_located(here));
        lemma_all_toml_concat(python_entries(es, path, group, n - 1), here);
    }
}

proof fn lemma_python_map_located(top: Entries, path: Seq<Seq<char>>, group: Seq<char>)
    ensures
        all_toml_located(python_map_deps(top, path, group)),
{
    match path_item(top, path) {
        Some(TomlView::Table(es)) => lemma_python_entries_located(es, path, group, es.len() as int),
        Some(TomlView::Inline(es)) => lemma_python_entries_located(es, path, group, es.len() as int),
        _ => {},
    }
}

proof fn lemma_poetry_groups_located(top: Entries, keys: Seq<Seq<char>>)
    ensures
        all_toml_located(poetry_groups(top, keys)),
    decreases keys.len(),
{
    if keys.len() > 0 {
        lemma_poetry_groups_located(top, keys.drop_last());
        let path = seq!["tool"@, "poetry"@, "group"@, keys.last(), "dependencies"@];
        let group = "tool.poetry.group."@ + keys.last() + ".dependencies"@;
        lemma_python_map_located(top, path, group);
        lemma_all_toml_concat(poetry_groups(top, keys.drop_last()), python_map_deps(top, path, group));
    }
}

/// Usable updates name dependencies located in a TOML document.
proof fn lemma_no_toml_update_error(deps: Seq<DependencyModel>, u: Seq<(int, Seq<char>)>)
    requires
        all_toml_located(deps),
        forall|j: int| 0 <= j < u.len() ==> 0 <= #[trigger] u[j].0 < deps.len(),
    ensures
        toml_update_error(deps, u) is None,
    decreases u.len(),
{
    if u.len() > 0 {
        assert forall|j: int| 0 <= j < u.drop_last().len() implies 0 <= #[trigger] u.drop_last()[
            j
        ].0 < deps.len() by {
            assert(u.drop_last()[j] == u[j]);
        }
        lemma_no_toml_update_error(deps, u.drop_last());
        assert(u.last() == u[u.len() - 1]);
    }
}

/// Every dependency read from a `pyproject.toml` or `Pipfile` document is
/// located in it, so rendering accepts any updates that name such
/// dependencies.
pub proof fn toml_declarations_are_accepted_for_update(top: Entries, u: Seq<(int, Seq<char>)>)
    ensures
        spec_pyproject(top) matches Ok(ds) ==> ((forall|j: int|
            0 <= j < u.len() ==> 0 <= #[trigger] u[j].0 < ds.len()) ==> toml_update_error(ds, u)
            is None),
        (forall|j: int| 0 <= j < u.len() ==> 0 <= #[trigger] u[j].0 < spec_pipfile(top).len())
            ==> toml_update_error(spec_pipfile(top), u) is None,
{
    let a = pep508_array_deps(top, p_project_deps(), "project.dependencies"@);
    if let Some(TomlView::Array(vals)) = path_item(top, p_project_deps()) {
        lemma_pep508_values_located(vals, p_project_deps(), "project.dependencies"@, vals.len() as int);
    }
    lemma_pep508_groups_located(
        top,
        p_optional(),
        "project.optional-dependencies."@,
        table_keys(path_item(top, p_optional())),
    );
    lemma_pep508_groups_located(
        top,
        p_groups(),
        "dependency-groups."@,
        table_keys(path_item(top, p_groups())),
    );
    lemma_python_map_located(top, p_poetry_deps(), "tool.poetry.dependencies"@);
    lemma_python_map_located(top, p_poetry_dev(), "tool.poetry.dev-dependencies"@);
    lemma_poetry_groups_located(top, table_keys(path_item(top, p_poetry_group())));
    lemma_python_map_located(top, seq!["packages"@], "packages"@);
    lemma_python_map_located(top, seq!["dev-packages"@], "dev-packages"@);
    lemma_all_toml_concat(
        python_map_deps(top, seq!["packages"@], "packages"@),
        python_map_deps(top, seq!["dev-packages"@], "dev-packages"@),
    );
    if let Ok(ds) = spec_pyproject(top) {
        let b = pep508_groups(
            top,
            p_optional(),
            "project.optional-dependencies."@,
            table_keys(path_item(top, p_optional())),
        )->Ok_0;
        let c = pep508_groups(
            top,
            p_groups(),
            "dependency-groups."@,
            table_keys(path_item(top, p_groups())),
        )->Ok_0;
        let d = python_map_deps(top, p_poetry_deps(), "tool.poetry.dependencies"@);
        let e = python_map_deps(top, p_poetry_dev(), "tool.poetry.dev-dependencies"@);
        let f = poetry_groups(top, table_keys(path_item(top, p_poetry_group())));
        let a0 = a->Ok_0;
        lemma_all_toml_concat(a0, b);
        lemma_all_toml_concat(a0 + b, c);
        lemma_all_toml_concat(a0 + b + c, d);
        lemma_all_toml_concat(a0 + b + c + d, e);
        lemma_all_toml_concat(a0 + b + c + d + e, f);
        if forall|j: int| 0 <= j < u.len() ==> 0 <= #[trigger] u[j].0 < ds.len() {
            lemma_no_toml_update_error(ds, u);
        }
    }
    if forall|j: int| 0 <= j < u.len() ==> 0 <= #[trigger] u[j].0 < spec_pipfile(top).len() {
        lemma_no_toml_update_error(spec_pipfile(top), u);
    }
}

// ---------------------------------------------------------------------------
// Writing into a TOML document
// ---------------------------------------------------------------------------

/// A TOML manifest rendered with no updates is the text it was rendered
/// from, character for character.
pub proof fn toml_render_without_updates_keeps_text(
    content: Seq<char>,
    top: Layout,
    deps: Seq<DependencyModel>,
)
    ensures
        spec_render_toml(content, top, deps, seq![]) == Ok::<Seq<char>, Seq<char>>(content),
{
    let e = Seq::<(int, int, Seq<char>)>::empty();
    assert(toml_edits(top, deps, seq![]) == Ok::<Seq<(int, int, Seq<char>)>, Seq<char>>(e));
    assert(sort_desc(e) =~= e);
    assert(char_spans(content, e) =~= e);
}

/// Rendering one update of a TOML manifest writes the update's string, as
/// `toml_edit` writes a string value, in place of the text of the value at
/// the dependency's location, and keeps every character before and after
/// that value: comments, whitespace and all other entries.
pub proof fn toml_update_replaces_only_its_value(
    content: Seq<char>,
    top: Layout,
    deps: Seq<DependencyModel>,
    i: int,
    rep: Seq<char>,
)
    requires
        spec_render_toml(content, top, deps, seq![(i, rep)]) is Ok,
    ensures
        0 <= i < deps.len(),
        location_edit(top, deps[i].location, rep) matches Ok(e) && {
            let a = char_index(content, e.0)->0;
            let b = char_index(content, e.1)->0;
            &&& 0 <= a <= b <= content.len()
            &&& e.2 == toml_string_text(rep)
            &&& spec_render_toml(content, top, deps, seq![(i, rep)]) == Ok::<Seq<char>, Seq<char>>(
                content.take(a) + toml_string_text(rep) + content.skip(b),
            )
        },
{
    let u = seq![(i, rep)];
    assert(u.drop_last() =~= Seq::<(int, Seq<char>)>::empty());
    assert(u.last() == (i, rep));
    let e = location_edit(top, deps[i].location, rep)->Ok_0;
    let edits = seq![e];
    assert(toml_edits(top, deps, u.drop_last()) == Ok::<Seq<(int, int, Seq<char>)>, Seq<char>>(
        Seq::<(int, int, Seq<char>)>::empty(),
    ));
    assert(toml_update_error(deps, u.drop_last()) is None);
    assert(toml_update_error(deps, u) is None);
    assert(0 <= i < deps.len());
    assert(toml_edits(top, deps, u) is Ok);
    assert(location_edit(top, deps[i].location, rep) is Ok);
    assert(toml_edits(top, deps, u) == Ok::<Seq<(int, int, Seq<char>)>, Seq<char>>(edits)) by {
        assert(Seq::<(int, int, Seq<char>)>::empty().push(e) =~= edits);
    }
    assert(sort_desc(edits.drop_last()) =~= Seq::<(int, int, Seq<char>)>::empty());
    assert(sort_desc(edits) =~= edits);
    let spans = char_spans(content, edits);
    assert(spans[0] == char_span(content, e));
    assert(spans.drop_first() =~= Seq::<(int, int, Seq<char>)>::empty());
    assert(edits[0] == e);
    lemma_char_index_found(content, e.0);
    lemma_char_index_found(content, e.1);
    let a = char_index(content, e.0)->0;
    assert(splice_desc(content.take(a), spans.drop_first()) == content.take(a));
    assert(e.2 == toml_string_text(rep));
}

// ---------------------------------------------------------------------------
// npm sources, package filters and update runs
// ---------------------------------------------------------------------------

/// A workspace, file, link, portal or patch source, a git source (`git:`,
/// `git+...`, `github:`, `gitlab:`, `bitbucket:`) or a URL (`http:`,
/// `https:`), in any ASCII case and after surrounding whitespace, is
/// skipped: it is looked up under its own name, never on the registry, and
/// carries the reason that keeps it from being rewritten.
pub proof fn npm_non_registry_sources_are_skipped(name: Seq<char>, requirement: Seq<char>)
    requires
        ({
            let l = lower(trim(requirement));
            ||| starts_with(l, "workspace:"@)
            ||| starts_with(l, "file:"@)
            ||| starts_with(l, "link:"@)
            ||| starts_with(l, "portal:"@)
            ||| starts_with(l, "patch:"@)
            ||| starts_with(l, "git:"@)
            ||| starts_with(l, "git+"@)
            ||| starts_with(l, "github:"@)
            ||| starts_with(l, "gitlab:"@)
            ||| starts_with(l, "bitbucket:"@)
            ||| starts_with(l, "http:"@)
            ||| starts_with(l, "https:"@)
        }),
    ensures
        spec_node_registry_target(name, requirement) == (name, Some(msg_local())),
{
}

/// A package filter selects a dependency named by its declared name (in any
/// ASCII case), by its registry name after normalization, or when it names
/// nothing at all.
pub proof fn filters_select_by_declared_or_registry_name(names: Seq<Seq<char>>, d: DependencyModel)
    ensures
        names.len() == 0 ==> selects(names, d),
        names.contains(lower(d.name)) ==> selects(names, d),
        names.contains(lower(spec_normalize(d.ecosystem, d.lookup_name))) ==> selects(names, d),
{
}

/// The updates handed to manifest `m` are exactly those addressed to it, in
/// the order they were collected: every update for `m` is among them, each
/// of them comes from an update for `m`, and there are as many as there are
/// updates for `m`.
pub proof fn each_manifest_gets_all_its_updates(u: Seq<(int, int, Seq<char>)>, m: int)
    ensures
        updates_of(u, m) == u.filter(|e: (int, int, Seq<char>)| e.0 == m).map_values(
            |e: (int, int, Seq<char>)| (e.1, e.2),
        ),
        updates_of(u, m).len() == u.filter(|e: (int, int, Seq<char>)| e.0 == m).len(),
        forall|k: int| 0 <= k < u.len() && u[k].0 == m ==> updates_of(u, m).contains(
            (#[trigger] u[k].1, u[k].2),
        ),
        forall|j: int|
            0 <= j < updates_of(u, m).len() ==> exists|k: int|
                0 <= k < u.len() && u[k].0 == m && #[trigger] updates_of(u, m)[j] == (u[k].1, u[k].2),
    decreases u.len(),
{
    reveal(Seq::filter);
    if u.len() > 0 {
        let init = u.drop_last();
        each_manifest_gets_all_its_updates(init, m);
        let prev = updates_of(init, m);
        if u.last().0 == m {
            assert(u.filter(|e: (int, int, Seq<char>)| e.0 == m).map_values(
                |e: (int, int, Seq<char>)| (e.1, e.2),
            ) =~= init.filter(|e: (int, int, Seq<char>)| e.0 == m).map_values(
                |e: (int, int, Seq<char>)| (e.1, e.2),
            ).push((u.last().1, u.last().2)));
        }
        assert forall|k: int| 0 <= k < u.len() && u[k].0 == m implies updates_of(u, m).contains(
            (#[trigger] u[k].1, u[k].2),
        ) by {
            if k < u.len() - 1 {
                assert(init[k] == u[k]);
                assert(prev.contains((init[k].1, init[k].2)));
                let j = choose|j: int| 0 <= j < prev.len() && prev[j] == (init[k].1, init[k].2);
                assert(updates_of(u, m)[j] == prev[j]);
            } else {
                assert(updates_of(u, m)[prev.len() as int] == (u[k].1, u[k].2));
            }
        }
        assert forall|j: int| 0 <= j < updates_of(u, m).len() implies exists|k: int|
            0 <= k < u.len() && u[k].0 == m && #[trigger] updates_of(u, m)[j] == (u[k].1, u[k].2) by {
            if j < prev.len() {
                assert(updates_of(u, m)[j] == prev[j]);
                let k = choose|k: int|
                    0 <= k < init.len() && init[k].0 == m && prev[j] == (init[k].1, init[k].2);
                assert(init[k] == u[k]);
            } else {
                assert(updates_of(u, m)[j] == (u[u.len() - 1].1, u[u.len() - 1].2));
            }
        }
    } else {
        assert(u.filter(|e: (int, int, Seq<char>)| e.0 == m).map_values(
            |e: (int, int, Seq<char>)| (e.1, e.2),
        ) =~= Seq::<(int, Seq<char>)>::empty());
    }
}

// ---------------------------------------------------------------------------
// Simple constraints are rewritten
// ---------------------------------------------------------------------------

/// A plain version: it starts with a digit and holds only digits, ASCII
/// letters other than `x` and `X`, `.`, `-` and `+`.
pub open spec fn plain_version(v: Seq<char>) -> bool {
    &&& v.len() > 0
    &&& '0' <= v[0] <= '9'
    &&& forall|i: int|
        0 <= i < v.len() ==> ('0' <= #[trigger] v[i] <= '9') || ('a' <= v[i] <= 'z' && v[i] != 'x')
            || ('A' <= v[i] <= 'Z' && v[i] != 'X') || v[i] == '.' || v[i] == '-' || v[i] == '+'
}

/// A constraint made of one of the operators below and a plain version.
proof fn lemma_simple_constraint(op: Seq<char>, v: Seq<char>, latest: Seq<char>, kind: ConstraintKind)
    requires
        plain_version(v),
        op =~= seq!['^'] || op =~= seq!['~'] || op =~= seq!['~', '='] || op =~= seq!['=', '=']
            || op =~= seq!['=', '=', '='] || op =~= seq!['>', '='] || op =~= seq!['=']
            || op.len() == 0,
    ensures
        ({
            let c = op + v;
            &&& trim(c) == c
            &&& !is_compound(c)
            &&& operator_len(c) == op.len()
            &&& c.take(op.len() as int) == op
            &&& op_allowed(kind, op) ==> spec_update_single_constraint(c, latest, kind) == Ok::<
                Seq<char>,
                Seq<char>,
            >(op + latest)
        }),
{
    let c = op + v;
    let n = op.len() as int;
    assert forall|i: int| 0 <= i < c.len() implies !is_ws(#[trigger] c[i]) && c[i] != ','
        && c[i] != '|' && c[i] != ' ' && c[i] != '*' && c[i] != 'x' && c[i] != 'X' by {
        if i >= n {
            assert(c[i] == v[i - n]);
        }
    }
    assert(c.len() > 0);
    assert(trim_start(c) == c);
    assert(trim_end(c) == c) by {
        assert(c.last() == c[c.len() - 1]);
    }
    assert(!c.contains(','));
    assert forall|i: int| !occurs_at(c, seq!['|', '|'], i) by {
        if occurs_at(c, seq!['|', '|'], i) {
            assert(c.subrange(i, i + 2)[0] == c[i]);
        }
    }
    assert forall|i: int| !occurs_at(c, seq![' ', '-', ' '], i) by {
        if occurs_at(c, seq![' ', '-', ' '], i) {
            assert(c.subrange(i, i + 3)[0] == c[i]);
        }
    }
    assert(!later_word_with_operator(c)) by {
        assert forall|j: int, i: int| !(#[trigger] word_start(c, i) && 0 <= j < i && !is_ws(#[trigger] c[j])) by {
            if word_start(c, i) {
                assert(is_ws(c[i - 1]));
            }
        }
    }
    assert(c[n] == v[0]);
    assert(c.take(n) =~= op);
    let rest = c.skip(n);
    assert(rest =~= v);
    assert(rest[0] == v[0]);
    assert(trim_start(rest) == rest);
    assert(!v.contains('*') && !v.contains('x') && !v.contains('X')) by {
        assert forall|i: int| 0 <= i < v.len() implies v[i] == c[i + n] by {}
    }
    assert(!has_ws(v)) by {
        assert forall|i: int| 0 <= i < v.len() implies v[i] == c[i + n] by {}
    }
    assert(c.subrange(n, c.len() - v.len()) =~= Seq::<char>::empty());
    assert(op + Seq::<char>::empty() + latest =~= op + latest);
}

/// A Python constraint made of `^`, `~`, `~=`, `==`, `===` or `>=` and a
/// plain version is rewritten to the same operator and `latest`.
pub proof fn python_simple_constraints_are_rewritten(op: Seq<char>, v: Seq<char>, latest: Seq<char>)
    requires
        plain_version(v),
        op =~= seq!['^'] || op =~= seq!['~'] || op =~= seq!['~', '='] || op =~= seq!['=', '=']
            || op =~= seq!['=', '=', '='] || op =~= seq!['>', '='],
    ensures
        spec_update_single_constraint(op + v, latest, ConstraintKind::Python) == Ok::<
            Seq<char>,
            Seq<char>,
        >(op + latest),
{
    lemma_simple_constraint(op, v, latest, ConstraintKind::Python);
}

/// An npm range made of `^`, `~`, `>=`, `=` or no operator and a plain
/// version is rewritten to the same operator and `latest`.
pub proof fn node_simple_ranges_are_rewritten(op: Seq<char>, v: Seq<char>, latest: Seq<char>)
    requires
        plain_version(v),
        op =~= seq!['^'] || op =~= seq!['~'] || op =~= seq!['>', '='] || op =~= seq!['=']
            || op.len() == 0,
    ensures
        spec_update_single_constraint(op + v, latest, ConstraintKind::Node) == Ok::<
            Seq<char>,
            Seq<char>,
        >(op + latest),
{
    lemma_simple_constraint(op, v, latest, ConstraintKind::Node);
}

// ---------------------------------------------------------------------------
// PEP 508 names
// ---------------------------------------------------------------------------

/// Scanning for an unquoted `;` in text that holds none finds nothing.
proof fn lemma_no_marker(s: Seq<char>, i: int, q: Option<char>, e: bool)
    requires
        0 <= i,
        !s.contains(';'),
    ensures
        unquoted_scan(s, i, q, e, ';') is None,
    decreases s.len() - i,
{
    if i < s.len() {
        assert(s[i] != ';');
        if e {
            lemma_no_marker(s, i + 1, q, false);
        } else if s[i] == '\\' {
            lemma_no_marker(s, i + 1, q, true);
        } else if s[i] == '\'' || s[i] == '"' {
            let nq = if q == Some(s[i]) {
                None
            } else if q is None {
                Some(s[i])
            } else {
                q
            };
            lemma_no_marker(s, i + 1, nq, false);
        } else {
            lemma_no_marker(s, i + 1, q, false);
        }
    }
}

/// A requirement written as a name (a non-empty run of ASCII letters,
/// digits, `-`, `_` and `.`) directly followed by a version specifier (text
/// that starts with neither such a character, `[`, nor whitespace, and holds
/// no `;`) is read as that name, with the specifier up to its trailing
/// whitespace.
pub proof fn pep508_name_is_the_leading_name_run(n: Seq<char>, s: Seq<char>)
    requires
        n.len() > 0,
        forall|i: int|
            0 <= i < n.len() ==> is_alnum(#[trigger] n[i]) || n[i] == '-' || n[i] == '_' || n[i]
                == '.',
        s.len() > 0,
        !is_alnum(s[0]) && s[0] != '-' && s[0] != '_' && s[0] != '.' && s[0] != '[' && !is_ws(s[0]),
        !s.contains(';'),
    ensures
        pep508_model(n + s) == Some((n, n.len() as int, (n.len() + trim_end(s).len()) as int)),
        (n + s).subrange(n.len() as int, (n.len() + trim_end(s).len()) as int) == trim_end(s),
{
    let v = n + s;
    let k = n.len() as int;
    assert(v[0] == n[0]);
    assert(!is_ws(v[0]));
    assert(trim_start(v) == v);
    assert(v.skip(0) =~= v);
    assert forall|j: int| 0 <= j < k implies name_char(#[trigger] v[j]) by {
        assert(v[j] == n[j]);
    }
    assert(v[k] == s[0]);
    lemma_span_len(v, |c: char| name_char(c), k);
    assert(v.skip(k) =~= s);
    assert(trim_start(s) == s);
    lemma_no_marker(s, 0, None, false);
    assert(v.subrange(k, v.len() as int) =~= s);
    assert(v.subrange(k, v.len() as int) == s);
    assert(v.subrange(0, k) =~= n);
    lemma_trim_end_prefix(s);
    assert(v.subrange(k, k + trim_end(s).len()) =~= s.take(trim_end(s).len() as int));
}

} // verus!

