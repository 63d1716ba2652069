//! Manifest kinds, text-manifest parsing, and safe source rendering.
//!
//! Parsers produce the common `Dependency` model plus a precise source
//! location. Renderers use that location to update only approved
//! declarations while preserving unrelated content.

use vstd::prelude::*;
use crate::model::{
    Dependency, DependencyLocation, DependencyModel, Ecosystem, LocationModel, ManifestKind,
    RequirementSyntax, deps_view,
};
use crate::text::{
    trim, trim_start, trim_end, byte_len, starts_with, lower, first_index, first_index_exec,
    first_occurrence, first_occurrence_exec, strip_end_char, strip_end_char_exec, trimmed,
    trimmed_end, trim_start_index, slice_of, string_of, owned, chars_of, byte_prefix_len,
    byte_length, lemma_byte_len_split, is_ws, is_whitespace, lowercase, eq_chars, push_all,
    last_index, last_index_exec,
};
use crate::version::{pep508_model, parse_pep508_chars, is_direct, msg_direct};
use crate::model::Manifest;
use crate::package_json::{
    finish_json, json_apply, json_document, json_pretty_text, parse_package_json,
    render_package_json, spec_package_json,
};
use crate::pyproject::{
    msg_failed_parse, parse_pipfile, parse_pyproject, render_toml, spec_pipfile, spec_pyproject,
};
use crate::toml_doc::toml_document;
use crate::toml_render::spec_render_toml;
use crate::toml_doc::toml_layout;
use crate::paths::{parent_dir, plain_name, slash_entry};
use crate::laws::{requirement_spans_in_order, setup_cfg_spans_in_order, spans_in_order};

verus! {

/// A sequence holding `o`'s value, if any.
pub open spec fn opt_seq<T>(o: Option<T>) -> Seq<T> {
    match o {
        Some(x) => seq![x],
        None => seq![],
    }
}

fn lit(s: &str) -> (v: Vec<char>)
    ensures
        v@ == s@,
{
    chars_of(s)
}

// ---------------------------------------------------------------------------
// One requirement line
// ---------------------------------------------------------------------------

/// The requirement expression on a text line: blank, `#` comment and `-`
/// option lines have none; otherwise a comment (` #` or, failing that,
/// `\t#`), a trailing `\` continuation and trailing commas are dropped.
pub open spec fn text_expression(line: Seq<char>) -> Option<Seq<char>> {
    let t = trim_start(line);
    if t.len() == 0 || t[0] == '#' || t[0] == '-' {
        None
    } else {
        let cut = match first_occurrence(t, seq![' ', '#']) {
            Some(i) => i,
            None => match first_occurrence(t, seq!['\t', '#']) {
                Some(i) => i,
                None => t.len() as int,
            },
        };
        let e0 = trim_end(t.take(cut));
        let e1 = if e0.len() > 0 && e0.last() == '\\' {
            trim_end(e0.drop_last())
        } else {
            e0
        };
        let e2 = trim_end(strip_end_char(e1, ','));
        if e2.len() == 0 {
            None
        } else {
            Some(e2)
        }
    }
}

/// The dependency a text line declares, when its expression is a PEP 508
/// requirement; `offset` is the byte offset of the line in its file and
/// the location is the expression's byte range.
pub open spec fn text_dependency(line: Seq<char>, offset: int, group: Seq<char>) -> Option<
    DependencyModel,
> {
    match text_expression(line) {
        None => None,
        Some(e) => match pep508_model(e) {
            None => None,
            Some((name, s, en)) => {
                let spec = e.subrange(s, en);
                let start = offset + byte_len(line.take(line.len() - trim_start(line).len()));
                Some(
                    DependencyModel {
                        name,
                        lookup_name: name,
                        ecosystem: Ecosystem::Python,
                        group,
                        requirement: spec,
                        raw: e,
                        syntax: RequirementSyntax::Pep508,
                        location: LocationModel::TextSpan { start, end: start + byte_len(e) },
                        skip_reason: if is_direct(spec) {
                            Some(msg_direct())
                        } else {
                            None
                        },
                    },
                )
            },
        },
    }
}

/// The requirement expression of a line, with the count of leading
/// whitespace characters before it.
fn text_expression_exec(line: &[char]) -> (r: (usize, Option<Vec<char>>))
    ensures
        r.0 == line@.len() - trim_start(line@).len(),
        match r.1 {
            Some(e) => text_expression(line@) == Some(e@) && r.0 + e@.len() <= line@.len()
                && e@ == line@.subrange(r.0 as int, r.0 + e@.len()),
            None => text_expression(line@) is None,
        },
{
    let lead = trim_start_index(line);
    let t = slice_of(line, lead, line.len());
    assert(t@ =~= trim_start(line@));
    if t.len() == 0 || t[0] == '#' || t[0] == '-' {
        return (lead, None);
    }
    let hash = vec![' ', '#'];
    let tab_hash = vec!['\t', '#'];
    assert(hash@ =~= seq![' ', '#']);
    assert(tab_hash@ =~= seq!['\t', '#']);
    let cut = match first_occurrence_exec(t.as_slice(), hash.as_slice()) {
        Some(i) => i,
        None => match first_occurrence_exec(t.as_slice(), tab_hash.as_slice()) {
            Some(i) => i,
            None => t.len(),
        },
    };
    let head = slice_of(t.as_slice(), 0, cut);
    let e0 = trimmed_end(head.as_slice());
    let e1 = if e0.len() > 0 && e0[e0.len() - 1] == '\\' {
        let inner = slice_of(e0.as_slice(), 0, e0.len() - 1);
        assert(inner@ =~= e0@.drop_last());
        let r = trimmed_end(inner.as_slice());
        assert(r@ =~= e0@.take(r@.len() as int));
        r
    } else {
        e0
    };
    let e1s = strip_end_char_exec(e1.as_slice(), ',');
    let e2 = trimmed_end(e1s.as_slice());
    if e2.len() == 0 {
        return (lead, None);
    }
    proof {
        assert(e2@ =~= t@.take(e2@.len() as int));
        assert(e2@ =~= line@.subrange(lead as int, lead + e2@.len()));
    }
    (lead, Some(e2))
}

/// Appends the dependency declared on `line`, if any.
pub fn collect_text_dependency(
    line: &[char],
    line_offset: usize,
    group: &[char],
    dependencies: &mut Vec<Dependency>,
)
    requires
        line_offset + byte_len(line@) <= usize::MAX,
    ensures
        deps_view(final(dependencies)@) == deps_view(old(dependencies)@) + opt_seq(
            text_dependency(line@, line_offset as int, group@),
        ),
{
    let (lead, expr) = text_expression_exec(line);
    let e2 = match expr {
        None => {
            assert(deps_view(dependencies@) + seq![] =~= deps_view(dependencies@));
            return ;
        },
        Some(e) => e,
    };
    proof {
        lemma_byte_len_split(line@, lead as int, lead + e2@.len());
        lemma_byte_len_split(line@, 0, lead as int);
        assert(line@.take(line@.len() as int) =~= line@);
        assert(line@.subrange(0, lead as int) =~= line@.take(lead as int));
        lemma_byte_len_split(line@, 0, line@.len() as int);
    }
    match parse_pep508_chars(e2.as_slice()) {
        None => {
            assert(deps_view(dependencies@) + seq![] =~= deps_view(dependencies@));
        },
        Some((name, s, en)) => {
            let lead_bytes = byte_prefix_len(line, lead);
            let expr_bytes = byte_length(e2.as_slice());
            let start = line_offset + lead_bytes;
            let end = start + expr_bytes;
            let spec = slice_of(e2.as_slice(), s, en);
            let direct = spec.len() > 0 && spec[0] == '@';
            let skip_reason = if direct {
                Some(owned("direct URL dependencies are not rewritten"))
            } else {
                None
            };
            let d = Dependency {
                name: string_of(name.as_slice()),
                lookup_name: string_of(name.as_slice()),
                ecosystem: Ecosystem::Python,
                group: string_of(group),
                requirement: string_of(spec.as_slice()),
                raw: string_of(e2.as_slice()),
                syntax: RequirementSyntax::Pep508,
                location: DependencyLocation::TextSpan { start, end },
                skip_reason,
            };
            let ghost old_deps = dependencies@;
            dependencies.push(d);
            proof {
                assert(deps_view(dependencies@) =~= deps_view(old_deps) + seq![d@]);
            }
        },
    }
}

// ---------------------------------------------------------------------------
// Lines of a text file
// ---------------------------------------------------------------------------

pub proof fn lemma_first_index_bounds(s: Seq<char>, c: char)
    ensures
        first_index(s, c) matches Some(i) ==> 0 <= i < s.len() && s[i] == c,
    decreases s.len(),
{
    if s.len() > 0 && s[0] != c {
        lemma_first_index_bounds(s.drop_first(), c);
    }
}

/// End (exclusive, past the `\n`) of the line that starts at `pos`.
pub open spec fn line_end(content: Seq<char>, pos: int) -> int {
    match first_index(content.skip(pos), '\n') {
        Some(i) => pos + i + 1,
        None => content.len() as int,
    }
}

/// A line without its `\n` and then without a `\r`.
pub open spec fn line_body(line: Seq<char>) -> Seq<char> {
    let a = if line.len() > 0 && line.last() == '\n' {
        line.drop_last()
    } else {
        line
    };
    if a.len() > 0 && a.last() == '\r' {
        a.drop_last()
    } else {
        a
    }
}

/// The end of the line at `pos` and its body.
fn next_line(content: &[char], pos: usize) -> (r: (usize, Vec<char>))
    requires
        pos < content@.len(),
    ensures
        pos < r.0 <= content@.len(),
        r.0 == line_end(content@, pos as int),
        r.1@ == line_body(content@.subrange(pos as int, r.0 as int)),
{
    let n = content.len();
    let rest = slice_of(content, pos, n);
    assert(rest@ =~= content@.skip(pos as int));
    proof {
        lemma_first_index_bounds(rest@, '\n');
    }
    let end = match first_index_exec(rest.as_slice(), '\n') {
        Some(i) => pos + i + 1,
        None => n,
    };
    let line = slice_of(content, pos, end);
    let mut b = line.len();
    if b > 0 && line[b - 1] == '\n' {
        b = b - 1;
    }
    if b > 0 && line[b - 1] == '\r' {
        b = b - 1;
    }
    let body = slice_of(line.as_slice(), 0, b);
    proof {
        let a = if line@.len() > 0 && line@.last() == '\n' {
            line@.drop_last()
        } else {
            line@
        };
        assert(a =~= line@.take(a.len() as int));
        if a.len() > 0 && a.last() == '\r' {
            assert(a.drop_last() =~= line@.take(a.len() - 1));
        }
    }
    (end, body)
}

pub proof fn lemma_line_body_bytes(content: Seq<char>, pos: int, end: int)
    requires
        0 <= pos <= end <= content.len(),
    ensures
        line_body(content.subrange(pos, end)) == content.subrange(
            pos,
            pos + line_body(content.subrange(pos, end)).len(),
        ),
        byte_len(content.take(pos)) + byte_len(line_body(content.subrange(pos, end))) <= byte_len(
            content,
        ),
{
    let line = content.subrange(pos, end);
    let a = if line.len() > 0 && line.last() == '\n' {
        line.drop_last()
    } else {
        line
    };
    let b = line_body(line);
    assert(a =~= line.take(a.len() as int));
    assert(b =~= line.take(b.len() as int));
    assert(b =~= content.subrange(pos, pos + b.len()));
    lemma_byte_len_split(content, pos, pos + b.len());
}

/// Dependencies of `requirements.txt`-style content, from the line at `pos`.
pub open spec fn requirements_from(content: Seq<char>, pos: int) -> Seq<DependencyModel>
    decreases content.len() - pos,
{
    if pos < 0 || pos >= content.len() {
        seq![]
    } else {
        let end = line_end(content, pos);
        if end <= pos || end > content.len() {
            seq![]
        } else {
            opt_seq(
                text_dependency(
                    line_body(content.subrange(pos, end)),
                    byte_len(content.take(pos)) as int,
                    "requirements"@,
                ),
            ) + requirements_from(content, end)
        }
    }
}

/// Parses a requirements file: one PEP 508 requirement per line, located
/// by its byte range so that it can be replaced in place.
pub fn parse_requirements(content: &str) -> (r: Vec<Dependency>)
    ensures
        deps_view(r@) == requirements_from(content@, 0),
{
    let total = content.as_bytes().len();
    let c = chars_of(content);
    let c = c.as_slice();
    let n = c.len();
    let group = lit("requirements");
    let mut dependencies: Vec<Dependency> = Vec::new();
    let mut pos: usize = 0;
    let mut offset: usize = 0;
    while pos < n
        invariant
            n == c@.len(),
            c@ == content@,
            total == byte_len(c@),
            group@ == "requirements"@,
            pos <= n,
            offset == byte_len(c@.take(pos as int)),
            requirements_from(c@, 0) == deps_view(dependencies@) + requirements_from(
                c@,
                pos as int,
            ),
        decreases n - pos,
    {
        let (end, body) = next_line(c, pos);
        proof {
            lemma_line_body_bytes(c@, pos as int, end as int);
            lemma_byte_len_split(c@, pos as int, end as int);
            lemma_byte_len_split(c@, 0, pos as int);
            assert(c@.subrange(0, pos as int) =~= c@.take(pos as int));
            lemma_byte_len_split(c@, 0, pos + body@.len());
        }
        let ghost before = deps_view(dependencies@);
        collect_text_dependency(body.as_slice(), offset, group.as_slice(), &mut dependencies);
        let seg = slice_of(c, pos, end);
        offset = offset + byte_length(seg.as_slice());
        proof {
            assert(c@.subrange(0, end as int) =~= c@.take(end as int));
            assert(deps_view(dependencies@) + requirements_from(c@, end as int) =~= before
                + requirements_from(c@, pos as int));
        }
        pos = end;
    }
    assert(deps_view(dependencies@) + seq![] =~= deps_view(dependencies@));
    dependencies
}

// ---------------------------------------------------------------------------
// setup.cfg
// ---------------------------------------------------------------------------

/// The dependency group an unindented `setup.cfg` line opens, with the
/// expression written after its separator (and that expression's character
/// index): `install_requires`, `setup_requires` and `tests_require` under
/// `[options]`, and every key under `[options.extras_require]`. The
/// separator is the first `=`, or else the first `:`.
pub open spec fn setup_assignment(line: Seq<char>, section: Seq<char>) -> Option<
    (Seq<char>, Option<(int, Seq<char>)>),
> {
    let sep = match first_index(line, '=') {
        Some(i) => Some(i),
        None => first_index(line, ':'),
    };
    match sep {
        None => None,
        Some(sp) => {
            let key = trim(line.take(sp));
            let enabled = (section == "options"@ && (key == "install_requires"@ || key
                == "setup_requires"@ || key == "tests_require"@)) || section
                == "options.extras_require"@;
            if !enabled {
                None
            } else {
                let group = if section == "options.extras_require"@ {
                    "options.extras_require."@ + key
                } else {
                    "options."@ + key
                };
                let tail = line.skip(sp + 1);
                let lead = tail.len() - trim_start(tail).len();
                let ex = trim(tail);
                Some(
                    (
                        group,
                        if ex.len() > 0 {
                            Some((sp + 1 + lead, ex))
                        } else {
                            None
                        },
                    ),
                )
            }
        },
    }
}

/// A `[section]` header line; its lowercased name.
pub open spec fn section_header(t: Seq<char>) -> Option<Seq<char>> {
    if t.len() > 0 && t[0] == '[' && t.last() == ']' && t.len() >= 2 {
        Some(lower(t.subrange(1, t.len() - 1)))
    } else {
        None
    }
}

/// What one `setup.cfg` line contributes, given the current section and the
/// group whose indented continuation lines are being read: the dependencies
/// it declares, and the section and group in force after it.
pub open spec fn setup_cfg_step(
    value: Seq<char>,
    offset: int,
    section: Seq<char>,
    active: Option<Seq<char>>,
) -> (Seq<DependencyModel>, Seq<char>, Option<Seq<char>>) {
    match section_header(trim(value)) {
        Some(name) => (seq![], name, None),
        None => if value.len() == 0 || !is_ws(value[0]) {
            match setup_assignment(value, section) {
                None => (seq![], section, None),
                Some((group, inline)) => (
                    opt_seq(
                        match inline {
                            Some((st, ex)) => text_dependency(
                                ex,
                                offset + byte_len(value.take(st)),
                                group,
                            ),
                            None => None,
                        },
                    ),
                    section,
                    Some(group),
                ),
            }
        } else {
            match active {
                Some(g) => (opt_seq(text_dependency(value, offset, g)), section, active),
                None => (seq![], section, active),
            }
        },
    }
}

/// Dependencies of `setup.cfg` content from the line at `pos`, given the
/// section and active group in force there.
pub open spec fn setup_cfg_from(
    content: Seq<char>,
    pos: int,
    section: Seq<char>,
    active: Option<Seq<char>>,
) -> Seq<DependencyModel>
    decreases content.len() - pos,
{
    if pos < 0 || pos >= content.len() {
        seq![]
    } else {
        let end = line_end(content, pos);
        if end <= pos || end > content.len() {
            seq![]
        } else {
            let step = setup_cfg_step(
                line_body(content.subrange(pos, end)),
                byte_len(content.take(pos)) as int,
                section,
                active,
            );
            step.0 + setup_cfg_from(content, end, step.1, step.2)
        }
    }
}

/// `setup_cfg_assignment` on characters: the group, and the inline
/// expression's character index and text.
pub fn setup_cfg_assignment(line: &[char], section: &[char]) -> (r: Option<
    (Vec<char>, Option<(usize, Vec<char>)>),
>)
    ensures
        match r {
            None => setup_assignment(line@, section@) is None,
            Some((g, inline)) => match setup_assignment(line@, section@) {
                Some((g2, inline2)) => g@ == g2 && match inline {
                    None => inline2 is None,
                    Some((st, ex)) => inline2 == Some((st as int, ex@)) && st + ex@.len()
                        <= line@.len() && ex@ == line@.subrange(st as int, st + ex@.len()),
                },
                None => false,
            },
        },
{
    let line_len = line.len();
    let sep = match first_index_exec(line, '=') {
        Some(i) => i,
        None => match first_index_exec(line, ':') {
            Some(i) => i,
            None => {
                return None;
            },
        },
    };
    let head = slice_of(line, 0, sep);
    let key = trimmed(head.as_slice());
    let options = lit("options");
    let extras = lit("options.extras_require");
    let is_options = eq_chars(section, options.as_slice());
    let is_extras = eq_chars(section, extras.as_slice());
    let enabled = (is_options && (eq_chars(key.as_slice(), lit("install_requires").as_slice())
        || eq_chars(key.as_slice(), lit("setup_requires").as_slice()) || eq_chars(
        key.as_slice(),
        lit("tests_require").as_slice(),
    ))) || is_extras;
    if !enabled {
        return None;
    }
    let mut group = if is_extras {
        lit("options.extras_require.")
    } else {
        lit("options.")
    };
    push_all(&mut group, key.as_slice());
    let tail = slice_of(line, sep + 1, line_len);
    assert(tail@ =~= line@.skip(sep + 1));
    let lead = trim_start_index(tail.as_slice());
    let ex = trimmed(tail.as_slice());
    if ex.len() > 0 {
        proof {
            assert(ex@ =~= line@.subrange(sep + 1 + lead, sep + 1 + lead + ex@.len()));
        }
        Some((group, Some((sep + 1 + lead, ex))))
    } else {
        Some((group, None))
    }
}

/// Reads one `setup.cfg` line (without its line ending).
fn setup_cfg_line(
    value: &[char],
    offset: usize,
    section: &mut Vec<char>,
    active: &mut Option<Vec<char>>,
    dependencies: &mut Vec<Dependency>,
)
    requires
        offset + byte_len(value@) <= usize::MAX,
    ensures
        ({
            let step = setup_cfg_step(
                value@,
                offset as int,
                old(section)@,
                crate::version::vopt(*old(active)),
            );
            &&& deps_view(final(dependencies)@) == deps_view(old(dependencies)@) + step.0
            &&& final(section)@ == step.1
            &&& crate::version::vopt(*final(active)) == step.2
        }),
{
    let ghost before = deps_view(dependencies@);
    let t = trimmed(value);
    if t.len() >= 2 && t[0] == '[' && t[t.len() - 1] == ']' {
        let inner = slice_of(t.as_slice(), 1, t.len() - 1);
        *section = lowercase(inner.as_slice());
        *active = None;
        assert(deps_view(dependencies@) =~= before + seq![]);
        return ;
    }
    assert(section_header(t@) is None);
    if value.len() == 0 || !is_whitespace(value[0]) {
        match setup_cfg_assignment(value, section.as_slice()) {
            None => {
                *active = None;
                assert(deps_view(dependencies@) =~= before + seq![]);
            },
            Some((group, inline)) => {
                match inline {
                    Some((st, ex)) => {
                        proof {
                            lemma_byte_len_split(value@, 0, st as int);
                            lemma_byte_len_split(value@, st as int, st + ex@.len());
                            assert(value@.subrange(0, st as int) =~= value@.take(st as int));
                            assert(value@.take(value@.len() as int) =~= value@);
                            lemma_byte_len_split(value@, 0, value@.len() as int);
                        }
                        let st_bytes = byte_prefix_len(value, st);
                        collect_text_dependency(
                            ex.as_slice(),
                            offset + st_bytes,
                            group.as_slice(),
                            dependencies,
                        );
                    },
                    None => {
                        assert(deps_view(dependencies@) =~= before + seq![]);
                    },
                }
                *active = Some(group);
            },
        }
    } else {
        match active {
            Some(g) => {
                collect_text_dependency(value, offset, g.as_slice(), dependencies);
            },
            None => {
                assert(deps_view(dependencies@) =~= before + seq![]);
            },
        }
    }
}

/// Parses `setup.cfg`: requirements under `install_requires`,
/// `setup_requires`, `tests_require` and `options.extras_require` keys,
/// written inline or on indented continuation lines.
pub fn parse_setup_cfg(content: &str) -> (r: Vec<Dependency>)
    ensures
        deps_view(r@) == setup_cfg_from(content@, 0, seq![], None),
{
    let total = content.as_bytes().len();
    let c = chars_of(content);
    let c = c.as_slice();
    let n = c.len();
    let mut dependencies: Vec<Dependency> = Vec::new();
    let mut section: Vec<char> = Vec::new();
    let mut active: Option<Vec<char>> = None;
    let mut pos: usize = 0;
    let mut offset: usize = 0;
    assert(section@ =~= seq![]);
    while pos < n
        invariant
            n == c@.len(),
            c@ == content@,
            total == byte_len(c@),
            pos <= n,
            offset == byte_len(c@.take(pos as int)),
            setup_cfg_from(c@, 0, seq![], None) == deps_view(dependencies@) + setup_cfg_from(
                c@,
                pos as int,
                section@,
                crate::version::vopt(active),
            ),
        decreases n - pos,
    {
        let (end, value) = next_line(c, pos);
        proof {
            lemma_line_body_bytes(c@, pos as int, end as int);
            lemma_byte_len_split(c@, pos as int, end as int);
            lemma_byte_len_split(c@, 0, pos as int);
            assert(c@.subrange(0, pos as int) =~= c@.take(pos as int));
            lemma_byte_len_split(c@, 0, pos + value@.len());
            lemma_byte_len_split(c@, pos as int, pos + value@.len());
            assert(c@.subrange(pos as int, pos + value@.len()) =~= value@);
        }
        let seg = slice_of(c, pos, end);
        let seg_bytes = byte_length(seg.as_slice());
        let ghost before = deps_view(dependencies@);
        let ghost old_section = section@;
        let ghost old_active = crate::version::vopt(active);
        setup_cfg_line(value.as_slice(), offset, &mut section, &mut active, &mut dependencies);
        offset = offset + seg_bytes;
        proof {
            assert(c@.subrange(0, end as int) =~= c@.take(end as int));
            assert(deps_view(dependencies@) + setup_cfg_from(
                c@,
                end as int,
                section@,
                crate::version::vopt(active),
            ) =~= before + setup_cfg_from(c@, pos as int, old_section, old_active));
        }
        pos = end;
    }
    assert(deps_view(dependencies@) + seq![] =~= deps_view(dependencies@));
    dependencies
}

// ---------------------------------------------------------------------------
// Rendering text manifests
// ---------------------------------------------------------------------------

/// An edit: replace bytes `start..end` with the text.
pub type EditModel = (int, int, Seq<char>);

pub open spec fn msg_invalid_text_update() -> Seq<char> {
    "invalid text dependency update"@
}

pub open spec fn msg_invalid_text_location() -> Seq<char> {
    "invalid text dependency location"@
}

/// The edits that `updates` ask for, in the given order, or the error for
/// the first update that names no dependency or a non-text location.
pub open spec fn text_edits(deps: Seq<DependencyModel>, updates: Seq<(int, Seq<char>)>) -> Result<
    Seq<EditModel>,
    Seq<char>,
>
    decreases updates.len(),
{
    if updates.len() == 0 {
        Ok(seq![])
    } else {
        match text_edits(deps, updates.drop_last()) {
            Err(e) => Err(e),
            Ok(edits) => {
                let (index, replacement) = updates.last();
                if index < 0 || index >= deps.len() {
                    Err(msg_invalid_text_update())
                } else {
                    match deps[index].location {
                        LocationModel::TextSpan { start, end } => Ok(
                            edits.push((start, end, replacement)),
                        ),
                        _ => Err(msg_invalid_text_location()),
                    }
                }
            },
        }
    }
}

/// Inserts `e` into edits ordered by descending start, after those whose
/// start is not smaller (a stable sort).
pub open spec fn insert_desc(sorted: Seq<EditModel>, e: EditModel) -> Seq<EditModel>
    decreases sorted.len(),
{
    if sorted.len() == 0 {
        seq![e]
    } else if sorted[0].0 < e.0 {
        seq![e] + sorted
    } else {
        seq![sorted[0]] + insert_desc(sorted.drop_first(), e)
    }
}

/// Edits stably sorted by descending start.
pub open spec fn sort_desc(edits: Seq<EditModel>) -> Seq<EditModel>
    decreases edits.len(),
{
    if edits.len() == 0 {
        seq![]
    } else {
        insert_desc(sort_desc(edits.drop_last()), edits.last())
    }
}

/// The character index at byte offset `b` of `text`, searching from `i`.
pub open spec fn char_index_from(text: Seq<char>, b: int, i: int) -> Option<int>
    decreases text.len() + 1 - i,
{
    if i < 0 || i > text.len() {
        None
    } else if byte_len(text.take(i)) == b {
        Some(i)
    } else if byte_len(text.take(i)) > b {
        None
    } else {
        char_index_from(text, b, i + 1)
    }
}

/// The character index at byte offset `b` of `text`: none when `b` is not
/// on a character boundary.
pub open spec fn char_index(text: Seq<char>, b: int) -> Option<int> {
    char_index_from(text, b, 0)
}

/// `String::replace_range(start..end, rep)`; none where it would panic.
pub open spec fn replace_bytes(text: Seq<char>, start: int, end: int, rep: Seq<char>) -> Option<
    Seq<char>,
> {
    match (char_index(text, start), char_index(text, end)) {
        (Some(a), Some(b)) => if a <= b {
            Some(text.take(a) + rep + text.skip(b))
        } else {
            None
        },
        _ => None,
    }
}

/// Applies edits one after the other; none when one cannot be applied.
pub open spec fn apply_edits(text: Seq<char>, edits: Seq<EditModel>) -> Option<Seq<char>>
    decreases edits.len(),
{
    if edits.len() == 0 {
        Some(text)
    } else {
        match replace_bytes(text, edits[0].0, edits[0].1, edits[0].2) {
            None => None,
            Some(t) => apply_edits(t, edits.drop_first()),
        }
    }
}

/// Replaces spans of characters of `text`, listed from the end of the text
/// towards its start: each `(a, b, r)` puts `r` in place of the characters
/// `a..b`, and every character outside the spans is kept, in order.
pub open spec fn splice_desc(text: Seq<char>, spans: Seq<(int, int, Seq<char>)>) -> Seq<char>
    decreases spans.len(),
{
    if spans.len() == 0 {
        text
    } else {
        splice_desc(text.take(spans[0].0), spans.drop_first()) + spans[0].2 + text.skip(spans[0].1)
    }
}

/// An edit's byte offsets in `text` as character indices.
pub open spec fn char_span(text: Seq<char>, e: (int, int, Seq<char>)) -> (int, int, Seq<char>) {
    (char_index(text, e.0)->0, char_index(text, e.1)->0, e.2)
}

/// Edits' byte offsets in `text` as character indices.
pub open spec fn char_spans(text: Seq<char>, edits: Seq<(int, int, Seq<char>)>) -> Seq<
    (int, int, Seq<char>),
> {
    edits.map_values(|e: (int, int, Seq<char>)| char_span(text, e))
}

/// Edits that each lie on character boundaries of `text`, start no later
/// than they end, and end no later than the start of every edit listed
/// before them.
pub open spec fn edits_fit_desc(text: Seq<char>, edits: Seq<EditModel>) -> bool {
    &&& forall|j: int|
        #![trigger edits[j]]
        0 <= j < edits.len() ==> edits[j].0 <= edits[j].1 && char_index(text, edits[j].0)
            is Some && char_index(text, edits[j].1) is Some && char_index(text, edits[j].0)->0
            <= char_index(text, edits[j].1)->0
    &&& forall|a: int, b: int|
        0 <= a < b < edits.len() ==> #[trigger] edits[b].1 <= #[trigger] edits[a].0
}

/// The rendered text: the edits applied from the end of the file first, so
/// that no edit moves the byte offsets of one still to come.
pub open spec fn spec_render_text(
    content: Seq<char>,
    deps: Seq<DependencyModel>,
    updates: Seq<(int, Seq<char>)>,
) -> Result<Option<Seq<char>>, Seq<char>> {
    match text_edits(deps, updates) {
        Err(e) => Err(e),
        Ok(edits) => Ok(apply_edits(content, sort_desc(edits))),
    }
}

pub open spec fn updates_view(u: Seq<(usize, String)>) -> Seq<(int, Seq<char>)> {
    u.map_values(|p: (usize, String)| (p.0 as int, p.1@))
}

pub open spec fn edits_view(e: Seq<(usize, usize, Vec<char>)>) -> Seq<EditModel> {
    e.map_values(|x: (usize, usize, Vec<char>)| (x.0 as int, x.1 as int, x.2@))
}

proof fn lemma_text_edits_err_prefix(
    deps: Seq<DependencyModel>,
    u: Seq<(int, Seq<char>)>,
    k: int,
    e: Seq<char>,
)
    requires
        0 <= k <= u.len(),
        text_edits(deps, u.take(k)) == Err::<Seq<EditModel>, Seq<char>>(e),
    ensures
        text_edits(deps, u) == Err::<Seq<EditModel>, Seq<char>>(e),
    decreases u.len() - k,
{
    if k < u.len() {
        assert(u.take(k + 1).drop_last() =~= u.take(k));
        lemma_text_edits_err_prefix(deps, u, k + 1, e);
    } else {
        assert(u.take(k) =~= u);
    }
}

fn collect_text_edits(dependencies: &[Dependency], updates: &[(usize, String)]) -> (r: Result<
    Vec<(usize, usize, Vec<char>)>,
    String,
>)
    ensures
        match r {
            Ok(e) => text_edits(deps_view(dependencies@), updates_view(updates@)) == Ok::<
                Seq<EditModel>,
                Seq<char>,
            >(edits_view(e@)),
            Err(m) => text_edits(deps_view(dependencies@), updates_view(updates@)) == Err::<
                Seq<EditModel>,
                Seq<char>,
            >(m@),
        },
{
    let mut edits: Vec<(usize, usize, Vec<char>)> = Vec::new();
    let mut k: usize = 0;
    proof {
        assert(updates_view(updates@.take(0)) =~= Seq::<(int, Seq<char>)>::empty());
        assert(edits_view(edits@) =~= Seq::<EditModel>::empty());
    }
    while k < updates.len()
        invariant
            k <= updates@.len(),
            text_edits(deps_view(dependencies@), updates_view(updates@.take(k as int))) == Ok::<
                Seq<EditModel>,
                Seq<char>,
            >(edits_view(edits@)),
        decreases updates.len() - k,
    {
        proof {
            assert(updates_view(updates@.take(k + 1)).drop_last() =~= updates_view(
                updates@.take(k as int),
            ));
        }
        let index = updates[k].0;
        if index >= dependencies.len() {
            proof {
                assert(updates_view(updates@).take(k + 1) =~= updates_view(updates@.take(k + 1)));
                assert(updates_view(updates@.take(k + 1)).last() == (index as int, updates@[k as int].1@));
                assert(text_edits(deps_view(dependencies@), updates_view(updates@.take(k + 1)))
                    == Err::<Seq<EditModel>, Seq<char>>(msg_invalid_text_update()));
                lemma_text_edits_err_prefix(
                    deps_view(dependencies@),
                    updates_view(updates@),
                    k + 1,
                    msg_invalid_text_update(),
                );
            }
            return Err(owned("invalid text dependency update"));
        }
        match &dependencies[index].location {
            DependencyLocation::TextSpan { start, end } => {
                let rep = crate::text::chars_of_string(&updates[k].1);
                let ghost old_edits = edits_view(edits@);
                edits.push((*start, *end, rep));
                proof {
                    assert(updates_view(updates@.take(k + 1)).last() == (index as int, updates@[k as int].1@));
                    assert(deps_view(dependencies@)[index as int].location == dependencies@[index as int].location@);
                    assert(edits_view(edits@.drop_last()) =~= old_edits);
                    assert(edits_view(edits@) =~= edits_view(edits@.drop_last()).push(
                        (*start as int, *end as int, updates@[k as int].1@),
                    ));
                }
            },
            _ => {
                proof {
                    assert(updates_view(updates@).take(k + 1) =~= updates_view(
                        updates@.take(k + 1),
                    ));
                    assert(updates_view(updates@.take(k + 1)).last() == (index as int, updates@[k as int].1@));
                    assert(deps_view(dependencies@)[index as int].location == dependencies@[index as int].location@);
                    assert(text_edits(deps_view(dependencies@), updates_view(updates@.take(k + 1)))
                        == Err::<Seq<EditModel>, Seq<char>>(msg_invalid_text_location()));
                    lemma_text_edits_err_prefix(
                        deps_view(dependencies@),
                        updates_view(updates@),
                        k + 1,
                        msg_invalid_text_location(),
                    );
                }
                return Err(owned("invalid text dependency location"));
            },
        }
        k = k + 1;
    }
    assert(updates@.take(updates@.len() as int) =~= updates@);
    Ok(edits)
}

proof fn lemma_insert_desc_split(sorted: Seq<EditModel>, e: EditModel, p: int)
    requires
        0 <= p <= sorted.len(),
        forall|j: int| 0 <= j < p ==> !(#[trigger] sorted[j].0 < e.0),
        p < sorted.len() ==> sorted[p].0 < e.0,
    ensures
        insert_desc(sorted, e) == sorted.take(p) + seq![e] + sorted.skip(p),
    decreases p,
{
    if p == 0 {
        if sorted.len() == 0 {
            assert(sorted.take(0) + seq![e] + sorted.skip(0) =~= seq![e]);
        } else {
            assert(sorted.take(0) + seq![e] + sorted.skip(0) =~= seq![e] + sorted);
        }
    } else {
        assert forall|j: int| 0 <= j < p - 1 implies !(#[trigger] sorted.drop_first()[j].0
            < e.0) by {
            assert(sorted.drop_first()[j] == sorted[j + 1]);
        }
        lemma_insert_desc_split(sorted.drop_first(), e, p - 1);
        assert(seq![sorted[0]] + (sorted.drop_first().take(p - 1) + seq![e]
            + sorted.drop_first().skip(p - 1)) =~= sorted.take(p) + seq![e] + sorted.skip(p));
    }
}

pub(crate) fn sort_edits_desc(edits: Vec<(usize, usize, Vec<char>)>) -> (r: Vec<(usize, usize, Vec<char>)>)
    ensures
        edits_view(r@) == sort_desc(edits_view(edits@)),
{
    let mut sorted: Vec<(usize, usize, Vec<char>)> = Vec::new();
    let mut rest = edits;
    let ghost all = edits_view(rest@);
    let mut pending: Vec<(usize, usize, Vec<char>)> = Vec::new();
    // Take the edits in order by reversing once.
    while rest.len() > 0
        invariant
            edits_view(pending@) + edits_view(rest@).reverse() == all.reverse(),
        decreases rest.len(),
    {
        let ghost before_rest = rest@;
        let e = rest.pop().unwrap();
        proof {
            assert(before_rest =~= rest@.push(e));
            assert(edits_view(before_rest) =~= edits_view(rest@).push(
                (e.0 as int, e.1 as int, e.2@),
            ));
            assert(edits_view(before_rest).reverse() =~= seq![(e.0 as int, e.1 as int, e.2@)]
                + edits_view(rest@).reverse());
            assert(edits_view(pending@.push(e)) =~= edits_view(pending@).push(
                (e.0 as int, e.1 as int, e.2@),
            ));
        }
        pending.push(e);
    }
    proof {
        assert(edits_view(rest@).reverse() =~= Seq::<EditModel>::empty());
        assert(edits_view(pending@) =~= all.reverse());
        assert(all.reverse().reverse() =~= all);
        assert(all.take(0) =~= Seq::<EditModel>::empty());
    }
    let ghost n = all.len();
    while pending.len() > 0
        invariant
            pending@.len() <= n,
            n == all.len(),
            edits_view(pending@) =~= all.skip(n - pending@.len()).reverse(),
            edits_view(sorted@) == sort_desc(all.take(n - pending@.len())),
        decreases pending.len(),
    {
        let ghost k = n - pending@.len();
        let ghost before_pending = pending@;
        let e = pending.pop().unwrap();
        proof {
            assert(before_pending =~= pending@.push(e));
            assert(edits_view(before_pending) =~= edits_view(pending@).push(
                (e.0 as int, e.1 as int, e.2@),
            ));
            assert(all.skip(k).reverse().last() == all[k]);
            assert(all.skip(k).reverse().drop_last() =~= all.skip(k + 1).reverse());
            assert(all.take(k + 1).drop_last() =~= all.take(k));
            assert(all.take(k + 1).last() == all[k]);
        }
        let mut p: usize = 0;
        while p < sorted.len() && !(sorted[p].0 < e.0)
            invariant
                p <= sorted@.len(),
                forall|j: int| 0 <= j < p ==> !(#[trigger] edits_view(sorted@)[j].0 < e.0 as int),
            decreases sorted.len() - p,
        {
            p = p + 1;
        }
        let ghost ev = (e.0 as int, e.1 as int, e.2@);
        proof {
            assert forall|j: int| 0 <= j < p implies !(#[trigger] edits_view(sorted@)[j].0
                < ev.0) by {}
            lemma_insert_desc_split(edits_view(sorted@), ev, p as int);
        }
        let ghost old_sorted = sorted@;
        sorted.insert(p, e);
        proof {
            assert(edits_view(sorted@) =~= edits_view(old_sorted).take(p as int) + seq![ev]
                + edits_view(old_sorted).skip(p as int));
        }
    }
    proof {
        assert(all.take(n as int) =~= all);
    }
    sorted
}

/// Finds the character index of byte offset `b` in `text`.
pub(crate) fn char_index_exec(text: &[char], b: usize) -> (r: Option<usize>)
    ensures
        match r {
            Some(i) => char_index(text@, b as int) == Some(i as int) && i <= text@.len(),
            None => char_index(text@, b as int) is None,
        },
{
    let n = text.len();
    let mut i: usize = 0;
    let mut acc: usize = 0;
    while i <= n
        invariant
            n == text@.len(),
            i <= n + 1,
            i <= n ==> acc == byte_len(text@.take(i as int)),
            char_index(text@, b as int) == char_index_from(text@, b as int, i as int),
        decreases n + 1 - i,
    {
        if acc == b {
            return Some(i);
        }
        if acc > b {
            return None;
        }
        if i == n {
            assert(char_index_from(text@, b as int, i + 1) is None);
            return None;
        }
        proof {
            assert(text@.take(i + 1) =~= text@.take(i as int).push(text@[i as int]));
            crate::text::lemma_byte_len_push(text@.take(i as int), text@[i as int]);
        }
        let w = crate::text::char_byte_width(text[i]);
        match acc.checked_add(w) {
            Some(next) => {
                acc = next;
            },
            None => {
                assert(char_index_from(text@, b as int, i + 1) is None);
                return None;
            },
        }
        i = i + 1;
    }
    None
}

pub(crate) fn apply_edits_exec(text: Vec<char>, edits: &[(usize, usize, Vec<char>)]) -> (r: Option<
    Vec<char>,
>)
    ensures
        crate::version::vopt(r) == apply_edits(text@, edits_view(edits@)),
{
    let mut cur = text;
    let mut k: usize = 0;
    assert(edits_view(edits@).skip(0) =~= edits_view(edits@));
    while k < edits.len()
        invariant
            k <= edits@.len(),
            apply_edits(text@, edits_view(edits@)) == apply_edits(
                cur@,
                edits_view(edits@).skip(k as int),
            ),
        decreases edits.len() - k,
    {
        let ghost ev = edits_view(edits@).skip(k as int);
        proof {
            assert(ev[0] == (edits@[k as int].0 as int, edits@[k as int].1 as int, edits@[k as int].2@));
            assert(ev.drop_first() =~= edits_view(edits@).skip(k + 1));
        }
        {
            let (start, end, rep) = (edits[k].0, edits[k].1, &edits[k].2);
            let a = match char_index_exec(cur.as_slice(), start) {
                Some(a) => a,
                None => {
                    return None;
                },
            };
            let b = match char_index_exec(cur.as_slice(), end) {
                Some(b) => b,
                None => {
                    return None;
                },
            };
            if a > b {
                return None;
            }
            let mut next = slice_of(cur.as_slice(), 0, a);
            push_all(&mut next, rep.as_slice());
            let tail = slice_of(cur.as_slice(), b, cur.len());
            push_all(&mut next, tail.as_slice());
            proof {
                assert(tail@ =~= cur@.skip(b as int));
            }
            cur = next;
        }
        k = k + 1;
    }
    proof {
        assert(edits_view(edits@).skip(k as int) =~= Seq::<EditModel>::empty());
    }
    Some(cur)
}

/// Renders requirements/setup.cfg text with replacements applied to the
/// byte spans recorded at parse time, from the end of the text first. Each
/// update is one edit at its dependency's span; an index given twice gives
/// two edits at the same offsets, the second applied to the text the first
/// left (callers are expected to give each index once).
pub fn render_text(content: &str, dependencies: &[Dependency], updates: &[(usize, String)]) -> (r:
    Result<String, String>)
    requires
        match text_edits(deps_view(dependencies@), updates_view(updates@)) {
            Ok(edits) => apply_edits(content@, sort_desc(edits)) is Some,
            Err(_) => true,
        },
    ensures
        match spec_render_text(content@, deps_view(dependencies@), updates_view(updates@)) {
            Err(e) => r matches Err(m) && m@ == e,
            Ok(t) => r matches Ok(s) && Some(s@) == t,
        },
{
    let edits = match collect_text_edits(dependencies, updates) {
        Ok(e) => e,
        Err(m) => {
            return Err(m);
        },
    };
    let sorted = sort_edits_desc(edits);
    let text = chars_of(content);
    match apply_edits_exec(text, sorted.as_slice()) {
        Some(t) => Ok(string_of(t.as_slice())),
        None => Err(owned("edit does not fit the text")),
    }
}

// ---------------------------------------------------------------------------
// Manifest kinds
// ---------------------------------------------------------------------------

/// `Path::extension` of a file name: the text after its last `.`, unless
/// that dot is the first character.
pub open spec fn extension(name: Seq<char>) -> Option<Seq<char>> {
    match last_index(name, '.') {
        Some(i) => if i > 0 {
            Some(name.skip(i + 1))
        } else {
            None
        },
        None => None,
    }
}

/// The manifest kind a file name denotes: `package.json`, `pyproject.toml`,
/// `Pipfile` and `setup.cfg` in any ASCII case, and any `.txt` or `.in` file
/// as a requirements file.
pub open spec fn spec_kind_for_file_name(name: Seq<char>) -> Option<ManifestKind> {
    let l = lower(name);
    if l == "package.json"@ {
        Some(ManifestKind::PackageJson)
    } else if l == "pyproject.toml"@ {
        Some(ManifestKind::PyProject)
    } else if l == "pipfile"@ {
        Some(ManifestKind::Pipfile)
    } else if l == "setup.cfg"@ {
        Some(ManifestKind::SetupCfg)
    } else if extension(name) == Some("txt"@) || extension(name) == Some("in"@) {
        Some(ManifestKind::Requirements)
    } else {
        None
    }
}

pub fn kind_for_file_name(name: &str) -> (r: Option<ManifestKind>)
    ensures
        r == spec_kind_for_file_name(name@),
{
    let n = chars_of(name);
    let l = lowercase(n.as_slice());
    let l = l.as_slice();
    if eq_chars(l, lit("package.json").as_slice()) {
        return Some(ManifestKind::PackageJson);
    }
    if eq_chars(l, lit("pyproject.toml").as_slice()) {
        return Some(ManifestKind::PyProject);
    }
    if eq_chars(l, lit("pipfile").as_slice()) {
        return Some(ManifestKind::Pipfile);
    }
    if eq_chars(l, lit("setup.cfg").as_slice()) {
        return Some(ManifestKind::SetupCfg);
    }
    let len = n.len();
    let ext = match last_index_exec(n.as_slice(), '.') {
        Some(i) => if i > 0 {
            let e = slice_of(n.as_slice(), i + 1, len);
            assert(e@ =~= n@.skip(i + 1));
            Some(e)
        } else {
            None
        },
        None => None,
    };
    match ext {
        Some(e) => if eq_chars(e.as_slice(), lit("txt").as_slice()) || eq_chars(
            e.as_slice(),
            lit("in").as_slice(),
        ) {
            Some(ManifestKind::Requirements)
        } else {
            None
        },
        None => None,
    }
}

pub open spec fn msg_invalid_path(path: Seq<char>) -> Seq<char> {
    "invalid manifest path "@ + path
}

pub open spec fn msg_unsupported(path: Seq<char>) -> Seq<char> {
    path + " is not a supported dependency manifest"@
}

/// The kind of the manifest at `path`, given the file name that `path`
/// ends in (`None` when it has none, or one that is not UTF-8).
pub fn kind_for_path(path: &str, name: Option<&str>) -> (r: Result<ManifestKind, String>)
    ensures
        match name {
            None => r matches Err(m) && m@ == msg_invalid_path(path@),
            Some(n) => match spec_kind_for_file_name(n@) {
                Some(k) => r == Ok::<ManifestKind, String>(k),
                None => r matches Err(m) && m@ == msg_unsupported(path@),
            },
        },
{
    match name {
        None => {
            let mut m = lit("invalid manifest path ");
            push_all(&mut m, chars_of(path).as_slice());
            Err(string_of(m.as_slice()))
        },
        Some(name) => match kind_for_file_name(name) {
            Some(kind) => Ok(kind),
            None => {
                let mut m = chars_of(path);
                push_all(&mut m, lit(" is not a supported dependency manifest").as_slice());
                Err(string_of(m.as_slice()))
            },
        },
    }
}

/// The kind of the manifest at `path`, judged by its file name. Which part
/// of a longer path is its file name is the platform's decision (see
/// `kind_for_path` for what follows from each answer); a path that is one
/// plain name is its own file name, and `..` has none.
pub fn infer_kind(path: &str) -> (r: Result<ManifestKind, String>)
    ensures
        r matches Err(m) ==> m@ == msg_invalid_path(path@) || m@ == msg_unsupported(path@),
        plain_name(path@) ==> match spec_kind_for_file_name(path@) {
            Some(k) => r == Ok::<ManifestKind, String>(k),
            None => r matches Err(m) && m@ == msg_unsupported(path@),
        },
        parent_dir(path@) ==> (r matches Err(m) && m@ == msg_invalid_path(path@)),
        forall|k: int|
            #[trigger] slash_entry(path@, k) ==> match spec_kind_for_file_name(path@.skip(k + 1)) {
                Some(kd) => r == Ok::<ManifestKind, String>(kd),
                None => r matches Err(m) && m@ == msg_unsupported(path@),
            },
{
    match crate::paths::file_name_of(path) {
        None => kind_for_path(path, None),
        Some(name) => kind_for_path(path, Some(name.as_str())),
    }
}

// ---------------------------------------------------------------------------
// JSON indentation
// ---------------------------------------------------------------------------

/// A line as `str::lines` yields it: without `\n`, and without a `\r`
/// that preceded that `\n`.
pub open spec fn lines_item(line: Seq<char>) -> Seq<char> {
    if line.len() > 0 && line.last() == '\n' {
        let a = line.drop_last();
        if a.len() > 0 && a.last() == '\r' {
            a.drop_last()
        } else {
            a
        }
    } else {
        line
    }
}

/// The leading whitespace of the first line at or after `pos` (the first
/// line of the text excluded when `first`) that has both leading whitespace
/// and other content; two spaces when there is none.
pub open spec fn indent_from(content: Seq<char>, pos: int, first: bool) -> Seq<char>
    decreases content.len() - pos,
{
    if pos < 0 || pos >= content.len() {
        seq![' ', ' ']
    } else {
        let end = line_end(content, pos);
        if end <= pos || end > content.len() {
            seq![' ', ' ']
        } else {
            let line = lines_item(content.subrange(pos, end));
            let ws = line.take(line.len() - trim_start(line).len());
            if !first && ws.len() > 0 && trim(line).len() > 0 {
                ws
            } else {
                indent_from(content, end, false)
            }
        }
    }
}

/// The indentation a JSON document uses: that of its first indented line
/// after the first line, or two spaces.
pub fn detect_json_indent(content: &str) -> (r: String)
    ensures
        r@ == indent_from(content@, 0, true),
{
    let c = chars_of(content);
    let c = c.as_slice();
    let n = c.len();
    let mut pos: usize = 0;
    let mut first = true;
    while pos < n
        invariant
            n == c@.len(),
            c@ == content@,
            pos <= n,
            indent_from(c@, 0, true) == indent_from(c@, pos as int, first),
        decreases n - pos,
    {
        let rest = slice_of(c, pos, n);
        assert(rest@ =~= c@.skip(pos as int));
        proof {
            lemma_first_index_bounds(rest@, '\n');
        }
        let end = match first_index_exec(rest.as_slice(), '\n') {
            Some(i) => pos + i + 1,
            None => n,
        };
        let raw = slice_of(c, pos, end);
        let mut b = raw.len();
        if b > 0 && raw[b - 1] == '\n' {
            b = b - 1;
            if b > 0 && raw[b - 1] == '\r' {
                b = b - 1;
            }
        }
        let line = slice_of(raw.as_slice(), 0, b);
        proof {
            if raw@.len() > 0 && raw@.last() == '\n' {
                let a = raw@.drop_last();
                if a.len() > 0 && a.last() == '\r' {
                    assert(line@ =~= a.drop_last());
                } else {
                    assert(line@ =~= a);
                }
            } else {
                assert(line@ =~= raw@);
            }
        }
        let lead = trim_start_index(line.as_slice());
        let t = trimmed(line.as_slice());
        if !first && lead > 0 && t.len() > 0 {
            let ws = slice_of(line.as_slice(), 0, lead);
            return string_of(ws.as_slice());
        }
        first = false;
        pos = end;
    }
    let two = vec![' ', ' '];
    assert(two@ =~= seq![' ', ' ']);
    string_of(two.as_slice())
}

// ---------------------------------------------------------------------------
// Whole manifests
// ---------------------------------------------------------------------------

/// What parsing `content` as a manifest of `kind` gives: its dependencies,
/// or the error. `None` stands for a document that the JSON or TOML parser
/// refuses; the error then names the file (`path`) and the parser's cause.
pub open spec fn manifest_dependencies(kind: ManifestKind, content: Seq<char>) -> Option<
    Result<Seq<DependencyModel>, Seq<char>>,
> {
    match kind {
        ManifestKind::PackageJson => match json_document(content) {
            None => None,
            Some(top) => Some(Ok(spec_package_json(top))),
        },
        ManifestKind::PyProject => match toml_document(content) {
            None => None,
            Some(top) => Some(spec_pyproject(top)),
        },
        ManifestKind::Pipfile => match toml_document(content) {
            None => None,
            Some(top) => Some(Ok(spec_pipfile(top))),
        },
        ManifestKind::Requirements => Some(Ok(requirements_from(content, 0))),
        ManifestKind::SetupCfg => Some(Ok(setup_cfg_from(content, 0, seq![], None))),
    }
}

/// Parses manifest text of the given kind (`path` names it in errors).
pub fn parse_manifest(kind: ManifestKind, content: &str, path: &str) -> (r: Result<
    Vec<Dependency>,
    String,
>)
    ensures
        match manifest_dependencies(kind, content@) {
            None => r matches Err(m) && starts_with(m@, msg_failed_parse(path@)),
            Some(Err(e)) => r matches Err(m) && m@ == e,
            Some(Ok(ds)) => r matches Ok(v) && deps_view(v@) == ds,
        },
{
    match kind {
        ManifestKind::PackageJson => parse_package_json(content, path),
        ManifestKind::PyProject => parse_pyproject(content, path),
        ManifestKind::Pipfile => parse_pipfile(content, path),
        ManifestKind::Requirements => Ok(parse_requirements(content)),
        ManifestKind::SetupCfg => Ok(parse_setup_cfg(content)),
    }
}

/// The precondition of rendering text manifests: the edits that the
/// updates ask for fit the text.
pub open spec fn text_edits_fit(
    content: Seq<char>,
    deps: Seq<DependencyModel>,
    updates: Seq<(int, Seq<char>)>,
) -> bool {
    match text_edits(deps, updates) {
        Ok(edits) => apply_edits(content, sort_desc(edits)) is Some,
        Err(_) => true,
    }
}

/// Whether the edits that `updates` ask for fit the text, which rendering a
/// text manifest requires.
pub fn text_updates_fit(content: &str, dependencies: &[Dependency], updates: &[(usize, String)]) -> (r:
    bool)
    ensures
        r == text_edits_fit(content@, deps_view(dependencies@), updates_view(updates@)),
{
    match collect_text_edits(dependencies, updates) {
        Err(_) => true,
        Ok(edits) => {
            let sorted = sort_edits_desc(edits);
            apply_edits_exec(chars_of(content), sorted.as_slice()).is_some()
        },
    }
}

impl Manifest {
    /// Whether `render` accepts these updates: always, except for text
    /// manifests whose edits do not fit the text.
    pub fn can_render(&self, updates: &[(usize, String)]) -> (r: bool)
        ensures
            r == (self.kind == ManifestKind::Requirements || self.kind == ManifestKind::SetupCfg
                ==> text_edits_fit(
                self.original@,
                deps_view(self.dependencies@),
                updates_view(updates@),
            )),
    {
        match self.kind {
            ManifestKind::Requirements | ManifestKind::SetupCfg => text_updates_fit(
                self.original.as_str(),
                self.dependencies.as_slice(),
                updates,
            ),
            _ => true,
        }
    }

    /// A manifest of the given kind whose file holds `original`, and the
    /// dependencies parsed from it (`path` names the file).
    pub fn from_source(path: String, kind: ManifestKind, original: String) -> (r: Result<
        Manifest,
        String,
    >)
        ensures
            match manifest_dependencies(kind, original@) {
                None => r matches Err(m) && starts_with(m@, msg_failed_parse(path@)),
                Some(Err(e)) => r matches Err(m) && m@ == e,
                Some(Ok(ds)) => r matches Ok(m) && m.path@ == path@ && m.kind == kind
                    && m.original@ == original@ && deps_view(m.dependencies@) == ds,
            },
            kind == ManifestKind::Requirements || kind == ManifestKind::SetupCfg ==> (r matches Ok(
                m,
            ) ==> spans_in_order(m.original@, deps_view(m.dependencies@))),
    {
        proof {
            requirement_spans_in_order(original@);
            setup_cfg_spans_in_order(original@);
        }
        let dependencies = match parse_manifest(kind, original.as_str(), path.as_str()) {
            Ok(d) => d,
            Err(e) => {
                return Err(e);
            },
        };
        Ok(Manifest { path, kind, original, dependencies })
    }

    /// Renders the manifest with the requested replacements, each given as
    /// the index of a dependency and its new declaration, using the source
    /// format's own structure rather than a global text replacement. Each
    /// index is meant to be given once; what a repeated index does depends
    /// on the format (see `render_package_json`, `render_toml` and
    /// `render_text`).
    pub fn render(&self, updates: &[(usize, String)]) -> (r: Result<String, String>)
        requires
            self.kind == ManifestKind::Requirements || self.kind == ManifestKind::SetupCfg
                ==> text_edits_fit(
                self.original@,
                deps_view(self.dependencies@),
                updates_view(updates@),
            ),
        ensures
            self.kind == ManifestKind::PackageJson ==> match json_document(self.original@) {
                None => r is Err,
                Some(doc) => match json_apply(
                    doc,
                    deps_view(self.dependencies@),
                    updates_view(updates@),
                ) {
                    Err(e) => r matches Err(m) && m@ == e,
                    Ok(d) => match json_pretty_text(d, indent_from(self.original@, 0, true)) {
                        Some(t) => r matches Ok(s) && s@ == finish_json(self.original@, t),
                        None => false,
                    },
                },
            },
            self.kind == ManifestKind::PyProject || self.kind == ManifestKind::Pipfile ==> match toml_layout(
                self.original@,
            ) {
                None => r is Err,
                Some(top) => match spec_render_toml(
                    self.original@,
                    top,
                    deps_view(self.dependencies@),
                    updates_view(updates@),
                ) {
                    Ok(t) => r matches Ok(s) && s@ == t,
                    Err(e) => r matches Err(m) && m@ == e,
                },
            },
            self.kind == ManifestKind::Requirements || self.kind == ManifestKind::SetupCfg
                ==> match spec_render_text(
                self.original@,
                deps_view(self.dependencies@),
                updates_view(updates@),
            ) {
                Err(e) => r matches Err(m) && m@ == e,
                Ok(t) => r matches Ok(s) && Some(s@) == t,
            },
    {
        match self.kind {
            ManifestKind::PackageJson => render_package_json(
                self.original.as_str(),
                self.dependencies.as_slice(),
                updates,
            ),
            ManifestKind::PyProject | ManifestKind::Pipfile => render_toml(
                self.original.as_str(),
                self.dependencies.as_slice(),
                updates,
            ),
            ManifestKind::Requirements | ManifestKind::SetupCfg => render_text(
                self.original.as_str(),
                self.dependencies.as_slice(),
                updates,
            ),
        }
    }
}

} // verus!
