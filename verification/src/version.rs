//! Dependency declaration parsing, comparison, and conservative replacement.
//!
//! Version ranges are intentionally handled as a small safe subset. When a
//! declaration cannot be proven safe to rewrite, it is reported as skipped
//! instead of guessing at package-manager semantics.

use vstd::prelude::*;
use crate::text::{
    is_ws, is_whitespace, trim, trim_start, trim_end, has_ws, contains_seq, slice_of, trimmed,
    trim_start_index, trim_end_index, contains_char, contains_exec, any_whitespace, chars_of,
    push_all, string_of, starts_with, has_prefix, lower, lowercase, eq_chars, is_digit,
    digit_value, digit_of, span_len, lemma_span_len, first_index, last_index, first_index_exec,
    last_index_exec, byte_len, byte_offset, is_alnum,
};
use crate::model::{Dependency, ReportStatus, RequirementSyntax};
use std::cmp::Ordering;

verus! {

/// Views a `Result` of character vectors as a `Result` of sequences.
pub open spec fn vres(r: Result<Vec<char>, Vec<char>>) -> Result<Seq<char>, Seq<char>> {
    match r {
        Ok(v) => Ok(v@),
        Err(e) => Err(e@),
    }
}

/// Views a `Result` of strings as a `Result` of sequences.
pub open spec fn sres(r: Result<String, String>) -> Result<Seq<char>, Seq<char>> {
    match r {
        Ok(v) => Ok(v@),
        Err(e) => Err(e@),
    }
}

/// Views an optional string as an optional sequence.
pub open spec fn sopt(r: Option<String>) -> Option<Seq<char>> {
    match r {
        Some(v) => Some(v@),
        None => None,
    }
}

/// Views an optional character vector as an optional sequence.
pub open spec fn vopt(r: Option<Vec<char>>) -> Option<Seq<char>> {
    match r {
        Some(v) => Some(v@),
        None => None,
    }
}

pub fn to_string_result(r: Result<Vec<char>, Vec<char>>) -> (s: Result<String, String>)
    ensures
        sres(s) == vres(r),
{
    match r {
        Ok(v) => Ok(string_of(v.as_slice())),
        Err(e) => Err(string_of(e.as_slice())),
    }
}

// ---------------------------------------------------------------------------
// Operators and compound ranges
// ---------------------------------------------------------------------------

/// Length of the comparison operator at the start of `s`: the first of
/// `===`, `==`, `~=`, `>=`, `<=`, `!=`, `^`, `~`, `>`, `<`, `=` that is a
/// prefix of `s`, or 0 when none is.
pub open spec fn operator_len(s: Seq<char>) -> int {
    if s.len() >= 3 && s[0] == '=' && s[1] == '=' && s[2] == '=' {
        3
    } else if s.len() >= 2 && s[1] == '=' && (s[0] == '=' || s[0] == '~' || s[0] == '>' || s[0]
        == '<' || s[0] == '!') {
        2
    } else if s.len() >= 1 && (s[0] == '^' || s[0] == '~' || s[0] == '>' || s[0] == '<' || s[0]
        == '=') {
        1
    } else {
        0
    }
}

pub fn operator_prefix_len(s: &[char]) -> (n: usize)
    ensures
        n == operator_len(s@),
        n <= s@.len(),
{
    let len = s.len();
    if len >= 3 && s[0] == '=' && s[1] == '=' && s[2] == '=' {
        3
    } else if len >= 2 && s[1] == '=' && (s[0] == '=' || s[0] == '~' || s[0] == '>' || s[0] == '<'
        || s[0] == '!') {
        2
    } else if len >= 1 && (s[0] == '^' || s[0] == '~' || s[0] == '>' || s[0] == '<' || s[0]
        == '=') {
        1
    } else {
        0
    }
}

/// Whether `value` begins with a comparison operator.
pub fn starts_with_operator(value: &[char]) -> (r: bool)
    ensures
        r == (operator_len(value@) > 0),
{
    operator_prefix_len(value) > 0
}

/// A whitespace-separated word begins at index `i` of `s`.
pub open spec fn word_start(s: Seq<char>, i: int) -> bool {
    0 < i < s.len() && is_ws(s[i - 1]) && !is_ws(s[i])
}

/// Some whitespace-separated word after the first begins with an operator.
pub open spec fn later_word_with_operator(s: Seq<char>) -> bool {
    exists|j: int, i: int|
        #![trigger s[j], word_start(s, i)]
        0 <= j < i && !is_ws(s[j]) && word_start(s, i) && operator_len(s.skip(i)) > 0
}

/// A compound range: a list (`,`), an alternative (`||`), a hyphen range
/// (` - `), or a second operator-led word.
pub open spec fn is_compound(s: Seq<char>) -> bool {
    ||| s.contains(',')
    ||| contains_seq(s, seq!['|', '|'])
    ||| contains_seq(s, seq![' ', '-', ' '])
    ||| later_word_with_operator(s)
}

fn later_word_has_operator(s: &[char]) -> (r: bool)
    ensures
        r == later_word_with_operator(s@),
{
    let n = s.len();
    let mut seen = false;
    let mut i: usize = 0;
    while i < n
        invariant
            n == s@.len(),
            i <= n,
            seen == exists|j: int| 0 <= j < i && !is_ws(#[trigger] s@[j]),
            forall|j: int, k: int|
                #![trigger s@[j], word_start(s@, k)]
                0 <= j < k < i && !is_ws(s@[j]) && word_start(s@, k) ==> operator_len(s@.skip(k))
                    == 0,
        decreases n - i,
    {
        if i > 0 && seen && is_whitespace(s[i - 1]) && !is_whitespace(s[i]) {
            let tail = vstd::slice::slice_subrange(s, i, n);
            assert(tail@ =~= s@.skip(i as int));
            if starts_with_operator(tail) {
                let ghost j = choose|j: int| 0 <= j < i && !is_ws(#[trigger] s@[j]);
                assert(word_start(s@, i as int));
                return true;
            }
        }
        if !is_whitespace(s[i]) {
            seen = true;
        }
        i = i + 1;
    }
    false
}

/// Whether a constraint combines several ranges.
pub fn has_compound_range(value: &[char]) -> (r: bool)
    ensures
        r == is_compound(value@),
{
    let bars = vec!['|', '|'];
    let dash = vec![' ', '-', ' '];
    proof {
        assert(bars@ =~= seq!['|', '|']);
        assert(dash@ =~= seq![' ', '-', ' ']);
    }
    contains_char(value, ',') || contains_exec(value, bars.as_slice()) || contains_exec(
        value,
        dash.as_slice(),
    ) || later_word_has_operator(value)
}

// ---------------------------------------------------------------------------
// Rewriting a single constraint
// ---------------------------------------------------------------------------

#[derive(Clone, Copy, Debug, PartialEq, Eq, Structural)]
pub enum ConstraintKind {
    Node,
    Python,
}

/// Operators after which the version may be replaced: `^`, `~`, `>=`, `=`
/// for npm; `===`, `==`, `~=`, `>=`, `^`, `~` for Python; and no operator.
pub open spec fn op_allowed(kind: ConstraintKind, op: Seq<char>) -> bool {
    op.len() == 0 || match kind {
        ConstraintKind::Node => (op.len() == 1 && (op[0] == '^' || op[0] == '~' || op[0] == '='))
            || (op.len() == 2 && op[0] == '>' && op[1] == '='),
        ConstraintKind::Python => (op.len() == 3 && op[0] == '=' && op[1] == '=' && op[2] == '=')
            || (op.len() == 2 && op[1] == '=' && (op[0] == '=' || op[0] == '~' || op[0] == '>'))
            || (op.len() == 1 && (op[0] == '^' || op[0] == '~')),
    }
}

pub open spec fn msg_unconstrained() -> Seq<char> {
    "unconstrained dependencies are left unchanged"@
}

pub open spec fn msg_compound() -> Seq<char> {
    "compound version ranges are not rewritten"@
}

pub open spec fn msg_operator(op: Seq<char>) -> Seq<char> {
    "the '"@ + op + "' constraint is not safe to rewrite"@
}

pub open spec fn msg_wildcard() -> Seq<char> {
    "wildcard or non-standard version constraints are not rewritten"@
}

/// The outcome of rewriting one constraint to `latest`: the operator and the
/// spacing after it are kept, and the version becomes `latest`; constraints
/// that are empty, `*`, compound, led by an unsafe operator, or whose version
/// is empty, holds `*`, `x`, `X` or whitespace are refused.
pub open spec fn spec_update_single_constraint(
    c: Seq<char>,
    latest: Seq<char>,
    kind: ConstraintKind,
) -> Result<Seq<char>, Seq<char>> {
    let t = trim(c);
    if t.len() == 0 || t == seq!['*'] {
        Err(msg_unconstrained())
    } else if is_compound(t) {
        Err(msg_compound())
    } else {
        let n = operator_len(t);
        let op = t.take(n);
        if !op_allowed(kind, op) {
            Err(msg_operator(op))
        } else {
            let rem = trim_start(t.skip(n));
            if rem.len() == 0 || rem.contains('*') || rem.contains('x') || rem.contains('X')
                || has_ws(rem) {
                Err(msg_wildcard())
            } else {
                Ok(op + t.subrange(n, t.len() - rem.len()) + latest)
            }
        }
    }
}

fn operator_allowed(kind: ConstraintKind, t: &[char], n: usize) -> (r: bool)
    requires
        n == operator_len(t@),
    ensures
        r == op_allowed(kind, t@.take(n as int)),
{
    if n == 0 {
        return true;
    }
    match kind {
        ConstraintKind::Node => (n == 1 && (t[0] == '^' || t[0] == '~' || t[0] == '=')) || (n == 2
            && t[0] == '>' && t[1] == '='),
        ConstraintKind::Python => (n == 3 && t[0] == '=' && t[1] == '=' && t[2] == '=') || (n == 2
            && t[1] == '=' && (t[0] == '=' || t[0] == '~' || t[0] == '>')) || (n == 1 && (t[0]
            == '^' || t[0] == '~')),
    }
}

fn lit(s: &str) -> (v: Vec<char>)
    ensures
        v@ == s@,
{
    chars_of(s)
}

/// Rewrites one constraint to `latest` on characters.
pub fn update_constraint_chars(c: &[char], latest: &[char], kind: ConstraintKind) -> (r: Result<
    Vec<char>,
    Vec<char>,
>)
    ensures
        vres(r) == spec_update_single_constraint(c@, latest@, kind),
{
    let t = trimmed(c);
    let t = t.as_slice();
    if t.len() == 0 || (t.len() == 1 && t[0] == '*') {
        proof {
            if t@.len() == 1 && t@[0] == '*' {
                assert(t@ =~= seq!['*']);
            }
        }
        return Err(lit("unconstrained dependencies are left unchanged"));
    }
    proof {
        if t@ == seq!['*'] {
            assert(t@[0] == '*');
        }
    }
    if has_compound_range(t) {
        return Err(lit("compound version ranges are not rewritten"));
    }
    let n = operator_prefix_len(t);
    if !operator_allowed(kind, t, n) {
        let mut m = lit("the '");
        let op = slice_of(t, 0, n);
        push_all(&mut m, op.as_slice());
        push_all(&mut m, lit("' constraint is not safe to rewrite").as_slice());
        proof {
            assert(op@ =~= t@.take(n as int));
        }
        return Err(m);
    }
    let after = slice_of(t, n, t.len());
    let a = trim_start_index(after.as_slice());
    let rem = slice_of(after.as_slice(), a, after.len());
    proof {
        assert(after@ =~= t@.skip(n as int));
        assert(rem@ =~= after@.skip(a as int));
    }
    if rem.len() == 0 || contains_char(rem.as_slice(), '*') || contains_char(rem.as_slice(), 'x')
        || contains_char(rem.as_slice(), 'X') || any_whitespace(rem.as_slice()) {
        return Err(lit("wildcard or non-standard version constraints are not rewritten"));
    }
    let mut out = slice_of(t, 0, n + a);
    push_all(&mut out, latest);
    proof {
        assert(t@.take(n as int) + t@.subrange(n as int, t@.len() - rem@.len()) =~= t@.take(
            n + a,
        ));
    }
    Ok(out)
}

/// Rewrites one constraint to `latest`, keeping its operator and spacing.
pub fn update_single_constraint(constraint: &str, latest: &str, kind: ConstraintKind) -> (r:
    Result<String, String>)
    ensures
        sres(r) == spec_update_single_constraint(constraint@, latest@, kind),
{
    let c = chars_of(constraint);
    let l = chars_of(latest);
    to_string_result(update_constraint_chars(c.as_slice(), l.as_slice(), kind))
}

// ---------------------------------------------------------------------------
// Anchors: the version a simple constraint is pinned to
// ---------------------------------------------------------------------------

pub open spec fn is_v(c: char) -> bool {
    c == 'v'
}

/// `s` without its leading `v` characters (`trim_start_matches('v')`).
pub open spec fn strip_v(s: Seq<char>) -> Seq<char> {
    s.skip(span_len(s, |c: char| is_v(c)) as int)
}

fn strip_v_exec(s: &[char]) -> (r: Vec<char>)
    ensures
        r@ == strip_v(s@),
{
    let mut i: usize = 0;
    while i < s.len() && s[i] == 'v'
        invariant
            i <= s@.len(),
            forall|j: int| 0 <= j < i ==> is_v(#[trigger] s@[j]),
        decreases s.len() - i,
    {
        i = i + 1;
    }
    proof {
        lemma_span_len(s@, |c: char| is_v(c), i as int);
    }
    slice_of(s, i, s.len())
}

/// The version a single (non-compound) constraint names, with leading `v`s
/// removed; none for empty, compound, `*`-holding, or dist-tag constraints.
pub open spec fn spec_constraint_anchor(c: Seq<char>) -> Option<Seq<char>> {
    let t = trim(c);
    if t.len() == 0 || is_compound(t) {
        None
    } else {
        let v = trim(t.skip(operator_len(t)));
        if v.len() == 0 || v.contains('*') || lower(v) == lower("latest"@) || lower(v) == lower(
            "next"@,
        ) || lower(v) == lower("beta"@) {
            None
        } else {
            Some(strip_v(v))
        }
    }
}

fn constraint_anchor(constraint: &[char]) -> (r: Option<Vec<char>>)
    ensures
        vopt(r) == spec_constraint_anchor(constraint@),
{
    let t = trimmed(constraint);
    if t.len() == 0 || has_compound_range(t.as_slice()) {
        return None;
    }
    let n = operator_prefix_len(t.as_slice());
    let rest = slice_of(t.as_slice(), n, t.len());
    proof {
        assert(rest@ =~= t@.skip(n as int));
    }
    let v = trimmed(rest.as_slice());
    let latest = lit("latest");
    let next = lit("next");
    let beta = lit("beta");
    if v.len() == 0 || contains_char(v.as_slice(), '*') || crate::text::eq_ignore_case(
        v.as_slice(),
        latest.as_slice(),
    ) || crate::text::eq_ignore_case(v.as_slice(), next.as_slice()) || crate::text::eq_ignore_case(
        v.as_slice(),
        beta.as_slice(),
    ) {
        None
    } else {
        Some(strip_v_exec(v.as_slice()))
    }
}

pub open spec fn npm_prefix() -> Seq<char> {
    seq!['n', 'p', 'm', ':']
}

fn npm_prefix_exec() -> (v: Vec<char>)
    ensures
        v@ == npm_prefix(),
{
    let v = vec!['n', 'p', 'm', ':'];
    assert(v@ =~= npm_prefix());
    v
}

/// Splits an npm alias target `name@range` at its last `@`, unless that `@`
/// is the first character (a scope marker).
pub open spec fn spec_split_npm_alias(a: Seq<char>) -> (Seq<char>, Option<Seq<char>>) {
    match last_index(a, '@') {
        Some(i) => if i > 0 {
            (a.take(i), Some(a.skip(i + 1)))
        } else {
            (a, None)
        },
        None => (a, None),
    }
}

fn split_npm_alias(alias: &[char]) -> (r: (Vec<char>, Option<Vec<char>>))
    ensures
        (r.0@, vopt(r.1)) == spec_split_npm_alias(alias@),
{
    let n = alias.len();
    match last_index_exec(alias, '@') {
        Some(i) => if i > 0 {
            (slice_of(alias, 0, i), Some(slice_of(alias, i + 1, n)))
        } else {
            (slice_of(alias, 0, alias.len()), None)
        },
        None => {
            let r = slice_of(alias, 0, alias.len());
            assert(r@ =~= alias@);
            (r, None)
        },
    }
}

/// Whether an npm requirement needs no version: empty, `*`, or (for npm) a
/// `latest`, `next` or `beta` dist-tag.
pub open spec fn spec_is_unconstrained(syntax: RequirementSyntax, requirement: Seq<char>) -> bool {
    let t = trim(requirement);
    ||| t.len() == 0
    ||| t == seq!['*']
    ||| (syntax == RequirementSyntax::Node && (lower(t) == "latest"@ || lower(t) == "next"@
        || lower(t) == "beta"@))
}

fn is_unconstrained(syntax: RequirementSyntax, requirement: &[char]) -> (r: bool)
    ensures
        r == spec_is_unconstrained(syntax, requirement@),
{
    let t = trimmed(requirement);
    if t.len() == 0 {
        return true;
    }
    if t.len() == 1 && t[0] == '*' {
        assert(t@ =~= seq!['*']);
        return true;
    }
    proof {
        if t@ == seq!['*'] {
            assert(t@[0] == '*');
        }
    }
    if syntax == RequirementSyntax::Node {
        let l = lowercase(t.as_slice());
        eq_chars(l.as_slice(), lit("latest").as_slice()) || eq_chars(
            l.as_slice(),
            lit("next").as_slice(),
        ) || eq_chars(l.as_slice(), lit("beta").as_slice())
    } else {
        false
    }
}

// ---------------------------------------------------------------------------
// npm registry targets and requirement rewriting
// ---------------------------------------------------------------------------

/// Some prefix marks the requirement as pointing outside the public registry:
/// a protocol (`workspace:`, `file:`, `git+`, `https:` and the like) or a
/// local path (`./`, `../`, `/`, `~/`).
pub open spec fn local_prefix(l: Seq<char>) -> bool {
    ||| starts_with(l, "./"@)
    ||| starts_with(l, "../"@)
    ||| starts_with(l, "/"@)
    ||| starts_with(l, "~/"@)
    ||| starts_with(l, "workspace:"@)
    ||| starts_with(l, "file:"@)
    ||| starts_with(l, "link:"@)
    ||| starts_with(l, "portal:"@)
    ||| starts_with(l, "patch:"@)
    ||| starts_with(l, "git:"@)
    ||| starts_with(l, "git+"@)
    ||| starts_with(l, "github:"@)
    ||| starts_with(l, "gitlab:"@)
    ||| starts_with(l, "bitbucket:"@)
    ||| starts_with(l, "http:"@)
    ||| starts_with(l, "https:"@)
}

fn has_local_prefix(l: &[char]) -> (r: bool)
    ensures
        r == local_prefix(l@),
{
    has_prefix(l, lit("./").as_slice()) || has_prefix(l, lit("../").as_slice()) || has_prefix(
        l,
        lit("/").as_slice(),
    ) || has_prefix(l, lit("~/").as_slice()) || has_prefix(l, lit("workspace:").as_slice())
        || has_prefix(l, lit("file:").as_slice())
        || has_prefix(l, lit("link:").as_slice()) || has_prefix(l, lit("portal:").as_slice())
        || has_prefix(l, lit("patch:").as_slice()) || has_prefix(l, lit("git:").as_slice())
        || has_prefix(l, lit("git+").as_slice()) || has_prefix(l, lit("github:").as_slice())
        || has_prefix(l, lit("gitlab:").as_slice()) || has_prefix(l, lit("bitbucket:").as_slice())
        || has_prefix(l, lit("http:").as_slice()) || has_prefix(l, lit("https:").as_slice())
}

pub open spec fn msg_local() -> Seq<char> {
    "local, workspace, URL, and git dependencies are not rewritten"@
}

/// The registry name an npm declaration is looked up under, and why it is
/// skipped: local/workspace/URL/git requirements are skipped, and an
/// `npm:target@range` alias is looked up under `target`.
pub open spec fn spec_node_registry_target(name: Seq<char>, requirement: Seq<char>) -> (
    Seq<char>,
    Option<Seq<char>>,
) {
    let t = trim(requirement);
    if local_prefix(lower(t)) {
        (name, Some(msg_local()))
    } else if starts_with(t, npm_prefix()) {
        (spec_split_npm_alias(t.skip(4)).0, None)
    } else {
        (name, None)
    }
}

pub fn node_registry_target(name: &str, requirement: &str) -> (r: (String, Option<String>))
    ensures
        (r.0@, sopt(r.1)) == spec_node_registry_target(name@, requirement@),
{
    let req = chars_of(requirement);
    let t = trimmed(req.as_slice());
    let l = lowercase(t.as_slice());
    if has_local_prefix(l.as_slice()) {
        return (
            crate::text::owned(name),
            Some(crate::text::owned("local, workspace, URL, and git dependencies are not rewritten")),
        );
    }
    let npm = npm_prefix_exec();
    if has_prefix(t.as_slice(), npm.as_slice()) {
        let alias = slice_of(t.as_slice(), 4, t.len());
        assert(alias@ =~= t@.skip(4));
        let (target, _) = split_npm_alias(alias.as_slice());
        return (string_of(target.as_slice()), None);
    }
    (crate::text::owned(name), None)
}

pub open spec fn msg_alias_no_range() -> Seq<char> {
    "npm alias has no version range"@
}

/// Rewrites an npm requirement, keeping surrounding whitespace and an
/// `npm:target@` alias prefix.
pub open spec fn spec_update_node_requirement(req: Seq<char>, latest: Seq<char>) -> Result<
    Seq<char>,
    Seq<char>,
> {
    let lead = req.take(req.len() - trim_start(req).len());
    let trail = req.skip(trim_end(req).len() as int);
    let t = trim(req);
    if starts_with(t, npm_prefix()) {
        let (target, range) = spec_split_npm_alias(t.skip(4));
        match range {
            None => Err(msg_alias_no_range()),
            Some(range) => match spec_update_single_constraint(range, latest, ConstraintKind::Node) {
                Err(e) => Err(e),
                Ok(u) => Ok(lead + npm_prefix() + target + seq!['@'] + u + trail),
            },
        }
    } else {
        match spec_update_single_constraint(t, latest, ConstraintKind::Node) {
            Err(e) => Err(e),
            Ok(u) => Ok(lead + u + trail),
        }
    }
}

fn update_node_requirement(requirement: &[char], latest: &[char]) -> (r: Result<
    Vec<char>,
    Vec<char>,
>)
    ensures
        vres(r) == spec_update_node_requirement(requirement@, latest@),
{
    let a = trim_start_index(requirement);
    let b = trim_end_index(requirement);
    let lead = slice_of(requirement, 0, a);
    let trail = slice_of(requirement, b, requirement.len());
    let t = trimmed(requirement);
    proof {
        assert(lead@ =~= requirement@.take(requirement@.len() - trim_start(requirement@).len()));
    }
    let npm = npm_prefix_exec();
    if has_prefix(t.as_slice(), npm.as_slice()) {
        let alias = slice_of(t.as_slice(), 4, t.len());
        assert(alias@ =~= t@.skip(4));
        let (target, range) = split_npm_alias(alias.as_slice());
        match range {
            None => Err(lit("npm alias has no version range")),
            Some(range) => match update_constraint_chars(
                range.as_slice(),
                latest,
                ConstraintKind::Node,
            ) {
                Err(e) => Err(e),
                Ok(u) => {
                    let mut out = lead;
                    push_all(&mut out, npm.as_slice());
                    push_all(&mut out, target.as_slice());
                    out.push('@');
                    push_all(&mut out, u.as_slice());
                    push_all(&mut out, trail.as_slice());
                    assert(out@ =~= lead@ + npm_prefix() + target@ + seq!['@'] + u@ + trail@);
                    Ok(out)
                },
            },
        }
    } else {
        match update_constraint_chars(t.as_slice(), latest, ConstraintKind::Node) {
            Err(e) => Err(e),
            Ok(u) => {
                let mut out = lead;
                push_all(&mut out, u.as_slice());
                push_all(&mut out, trail.as_slice());
                Ok(out)
            },
        }
    }
}

// ---------------------------------------------------------------------------
// PEP 508 requirement strings
// ---------------------------------------------------------------------------

/// Index, from `i` on, of the first `marker` outside quotes: a backslash
/// escapes the next character, and a quote opens a quoted run that only the
/// same quote character closes.
pub open spec fn unquoted_scan(
    s: Seq<char>,
    i: int,
    quote: Option<char>,
    escaped: bool,
    marker: char,
) -> Option<int>
    decreases s.len() - i,
{
    if i < 0 || i >= s.len() {
        None
    } else if escaped {
        unquoted_scan(s, i + 1, quote, false, marker)
    } else if s[i] == '\\' {
        unquoted_scan(s, i + 1, quote, true, marker)
    } else if s[i] == '\'' || s[i] == '"' {
        let q = if quote == Some(s[i]) {
            None
        } else if quote is None {
            Some(s[i])
        } else {
            quote
        };
        unquoted_scan(s, i + 1, q, false, marker)
    } else if s[i] == marker && quote is None {
        Some(i)
    } else {
        unquoted_scan(s, i + 1, quote, false, marker)
    }
}

pub open spec fn unquoted_index(s: Seq<char>, marker: char) -> Option<int> {
    unquoted_scan(s, 0, None, false, marker)
}

fn find_unquoted_marker(value: &[char], marker: char) -> (r: Option<usize>)
    ensures
        match r {
            Some(i) => unquoted_index(value@, marker) == Some(i as int),
            None => unquoted_index(value@, marker) is None,
        },
        r matches Some(i) ==> i < value@.len(),
{
    let mut quote: Option<char> = None;
    let mut escaped = false;
    let mut i: usize = 0;
    while i < value.len()
        invariant
            i <= value@.len(),
            unquoted_index(value@, marker) == unquoted_scan(value@, i as int, quote, escaped, marker),
        decreases value.len() - i,
    {
        let c = value[i];
        if escaped {
            escaped = false;
        } else if c == '\\' {
            escaped = true;
        } else if c == '\'' || c == '"' {
            if quote == Some(c) {
                quote = None;
            } else if quote.is_none() {
                quote = Some(c);
            }
        } else if c == marker && quote.is_none() {
            return Some(i);
        }
        i = i + 1;
    }
    None
}

pub open spec fn name_char(c: char) -> bool {
    is_alnum(c) || c == '-' || c == '_' || c == '.'
}

/// The structure `parse_pep508` finds in a requirement string: the package
/// name and the character range of the version specifier, which ends before
/// an unquoted `;` (environment marker) and excludes surrounding whitespace;
/// `[extras]` after the name are skipped. None when the string has no name or
/// an unclosed `[`.
pub open spec fn pep508_model(v: Seq<char>) -> Option<(Seq<char>, int, int)> {
    let lead = v.len() - trim_start(v).len();
    let n = span_len(v.skip(lead), |c: char| name_char(c)) as int;
    if n == 0 {
        None
    } else {
        let c0 = lead + n;
        let extras: Option<int> = if c0 < v.len() && v[c0] == '[' {
            match first_index(v.skip(c0), ']') {
                Some(e) => Some(c0 + e + 1),
                None => None,
            }
        } else {
            Some(c0)
        };
        match extras {
            None => None,
            Some(c1) => {
                let c2 = c1 + (v.len() - c1 - trim_start(v.skip(c1)).len());
                let m = match unquoted_index(v.skip(c2), ';') {
                    Some(o) => c2 + o,
                    None => v.len() as int,
                };
                let body = v.subrange(c2, m);
                Some(
                    (
                        v.subrange(lead, c0),
                        c2 + (body.len() - trim_start(body).len()),
                        c2 + trim_end(body).len(),
                    ),
                )
            },
        }
    }
}

/// A specifier that starts with `@` is a direct URL reference.
pub open spec fn is_direct(spec: Seq<char>) -> bool {
    spec.len() > 0 && spec[0] == '@'
}

#[derive(Clone, Debug, PartialEq, Eq)]
pub struct Pep508Parts {
    pub name: String,
    pub specifier: String,
    /// Byte offset of the specifier in the parsed string.
    pub spec_start: usize,
    /// Byte offset just past the specifier.
    pub spec_end: usize,
    pub direct: bool,
}

/// `parse_pep508` on characters: the name and the specifier's character range.
pub fn parse_pep508_chars(v: &[char]) -> (r: Option<(Vec<char>, usize, usize)>)
    ensures
        match r {
            None => pep508_model(v@) is None,
            Some((name, s, e)) => pep508_model(v@) == Some((name@, s as int, e as int)),
        },
        r matches Some((name, s, e)) ==> s <= e <= v@.len(),
{
    let len = v.len();
    let lead = trim_start_index(v);
    proof {
        assert(trim_start(v@).len() == len - lead);
    }
    let mut k: usize = lead;
    while k < len && (crate::text::is_alnum_exec(v[k]) || v[k] == '-' || v[k] == '_' || v[k]
        == '.')
        invariant
            lead <= k <= len == v@.len(),
            forall|j: int| lead <= j < k ==> name_char(#[trigger] v@[j]),
        decreases len - k,
    {
        k = k + 1;
    }
    let n = k - lead;
    proof {
        let body = v@.skip(lead as int);
        assert forall|j: int| 0 <= j < n implies name_char(#[trigger] body[j]) by {
            assert(body[j] == v@[lead + j]);
        }
        if n < body.len() {
            assert(body[n as int] == v@[k as int]);
        }
        lemma_span_len(body, |c: char| name_char(c), n as int);
    }
    if n == 0 {
        return None;
    }
    let c0 = k;
    let mut c1 = c0;
    if c0 < len && v[c0] == '[' {
        let rest = slice_of(v, c0, len);
        assert(rest@ =~= v@.skip(c0 as int));
        match first_index_exec(rest.as_slice(), ']') {
            Some(e) => {
                c1 = c0 + e + 1;
            },
            None => {
                return None;
            },
        }
    }
    let after = slice_of(v, c1, len);
    assert(after@ =~= v@.skip(c1 as int));
    let w = trim_start_index(after.as_slice());
    let c2 = c1 + w;
    let tail = slice_of(v, c2, len);
    assert(tail@ =~= v@.skip(c2 as int));
    let m = match find_unquoted_marker(tail.as_slice(), ';') {
        Some(o) => c2 + o,
        None => len,
    };
    let body = slice_of(v, c2, m);
    let bs = trim_start_index(body.as_slice());
    let be = trim_end_index(body.as_slice());
    proof {
        assert(trim_start(body@).len() == body@.len() - bs);
        assert(trim_end(body@).len() == be);
    }
    Some((slice_of(v, lead, c0), c2 + bs, c2 + be))
}

/// Splits a PEP 508 requirement into name and version specifier, with the
/// specifier's byte range so that it can be replaced in place.
pub fn parse_pep508(value: &str) -> (r: Option<Pep508Parts>)
    ensures
        match r {
            None => pep508_model(value@) is None,
            Some(p) => pep508_model(value@) matches Some((name, s, e)) && p.name@ == name
                && p.specifier@ == value@.subrange(s, e) && p.spec_start == byte_len(value@.take(s))
                && p.spec_end == byte_len(value@.take(e)) && p.direct == is_direct(p.specifier@),
        },
{
    let total = value.as_bytes().len();
    let v = chars_of(value);
    match parse_pep508_chars(v.as_slice()) {
        None => None,
        Some((name, s, e)) => {
            let specifier = slice_of(v.as_slice(), s, e);
            let direct = specifier.len() > 0 && specifier[0] == '@';
            Some(
                Pep508Parts {
                    name: string_of(name.as_slice()),
                    specifier: string_of(specifier.as_slice()),
                    spec_start: byte_offset(v.as_slice(), s, total),
                    spec_end: byte_offset(v.as_slice(), e, total),
                    direct,
                },
            )
        },
    }
}

// ---------------------------------------------------------------------------
// Loose version ordering
// ---------------------------------------------------------------------------

/// The text after the last `!` (a PEP 440 epoch separator), or all of it.
pub open spec fn after_epoch(s: Seq<char>) -> Seq<char> {
    match last_index(s, '!') {
        Some(i) => s.skip(i + 1),
        None => s,
    }
}

/// The text a version is read from: trimmed, without leading `v`s and epoch.
pub open spec fn version_text(s: Seq<char>) -> Seq<char> {
    after_epoch(strip_v(trim(s)))
}

/// The number a run of decimal digits denotes.
pub open spec fn digits_num(d: Seq<char>) -> nat
    decreases d.len(),
{
    if d.len() == 0 {
        0
    } else {
        digits_num(d.drop_last()) * 10 + digit_value(d.last())
    }
}

/// `str::parse::<u64>` of a digit run, or 0 when the number does not fit.
pub open spec fn segment_value(d: Seq<char>) -> u64 {
    if digits_num(d) <= u64::MAX {
        digits_num(d) as u64
    } else {
        0
    }
}

pub open spec fn digit_run(s: Seq<char>) -> int {
    span_len(s, |c: char| is_digit(c)) as int
}

pub proof fn lemma_span_len_bound(s: Seq<char>, p: spec_fn(char) -> bool)
    ensures
        span_len(s, p) <= s.len(),
    decreases s.len(),
{
    if s.len() > 0 && p(s[0]) {
        lemma_span_len_bound(s.drop_first(), p);
    }
}

/// The dot-separated numeric release segments at the start of `r`, and how
/// many characters they (and the dots after them) take. Reading stops at the
/// first segment that is not all digits, after taking its leading digits.
pub open spec fn release_scan(r: Seq<char>) -> (Seq<u64>, int)
    decreases r.len(),
{
    let d = digit_run(r);
    if d <= 0 || d > r.len() {
        (seq![], 0)
    } else if d < r.len() && r[d] == '.' {
        let rest = release_scan(r.skip(d + 1));
        (seq![segment_value(r.take(d))] + rest.0, d + 1 + rest.1)
    } else {
        (seq![segment_value(r.take(d))], d)
    }
}

/// `rel` without trailing zero segments.
pub open spec fn strip_zeros(rel: Seq<u64>) -> Seq<u64>
    decreases rel.len(),
{
    if rel.len() > 0 && rel.last() == 0 {
        strip_zeros(rel.drop_last())
    } else {
        rel
    }
}

/// The release numbers of a loosely parsed version (never empty).
pub open spec fn loose_release(s: Seq<char>) -> Seq<u64> {
    let r = strip_zeros(release_scan(version_text(s)).0);
    if r.len() == 0 {
        seq![0u64]
    } else {
        r
    }
}

/// The lowercased text after the release numbers of a loosely parsed version.
pub open spec fn loose_suffix(s: Seq<char>) -> Seq<char> {
    let v = version_text(s);
    lower(v.skip(release_scan(v).1))
}

pub open spec fn rel_at(r: Seq<u64>, i: int) -> u64 {
    if 0 <= i < r.len() {
        r[i]
    } else {
        0
    }
}

pub open spec fn max_len(a: Seq<u64>, b: Seq<u64>) -> int {
    if a.len() > b.len() {
        a.len() as int
    } else {
        b.len() as int
    }
}

/// Numeric comparison of release numbers from index `i` on, missing numbers
/// counting as 0: -1, 0 or 1.
pub open spec fn release_order(a: Seq<u64>, b: Seq<u64>, i: int) -> int
    decreases max_len(a, b) - i,
{
    if i < 0 || i >= max_len(a, b) {
        0
    } else if rel_at(a, i) < rel_at(b, i) {
        -1
    } else if rel_at(a, i) > rel_at(b, i) {
        1
    } else {
        release_order(a, b, i + 1)
    }
}

/// Lexicographic comparison of character sequences by code point (the byte
/// order of their UTF-8 encodings): -1, 0 or 1.
pub open spec fn text_order(a: Seq<char>, b: Seq<char>) -> int
    decreases a.len(),
{
    if a.len() == 0 {
        if b.len() == 0 {
            0
        } else {
            -1
        }
    } else if b.len() == 0 {
        1
    } else if a[0] < b[0] {
        -1
    } else if a[0] > b[0] {
        1
    } else {
        text_order(a.drop_first(), b.drop_first())
    }
}

/// Order of two loose versions: by release numbers, then a version without
/// suffix ranks above one with a suffix, then suffixes compare as text.
pub open spec fn loose_order(ra: Seq<u64>, sa: Seq<char>, rb: Seq<u64>, sb: Seq<char>) -> int {
    let o = release_order(ra, rb, 0);
    if o != 0 {
        o
    } else if sa.len() == 0 && sb.len() > 0 {
        1
    } else if sa.len() > 0 && sb.len() == 0 {
        -1
    } else {
        text_order(sa, sb)
    }
}

/// How version `x` orders against version `y`: -1, 0 or 1.
pub open spec fn version_order(x: Seq<char>, y: Seq<char>) -> int {
    loose_order(loose_release(x), loose_suffix(x), loose_release(y), loose_suffix(y))
}

/// Only enough structure to consistently order common Python and npm
/// release strings; not a complete PEP 440 or semver parser.
pub struct LooseVersion {
    pub release: Vec<u64>,
    pub suffix: Vec<char>,
}

fn segment_value_exec(s: &[char], i: usize, j: usize) -> (r: u64)
    requires
        i <= j <= s@.len(),
        forall|k: int| i <= k < j ==> is_digit(#[trigger] s@[k]),
    ensures
        r == segment_value(s@.subrange(i as int, j as int)),
{
    let mut acc: u64 = 0;
    let mut over = false;
    let mut k = i;
    while k < j
        invariant
            i <= k <= j <= s@.len(),
            forall|m: int| i <= m < j ==> is_digit(#[trigger] s@[m]),
            !over ==> acc == digits_num(s@.subrange(i as int, k as int)),
            over ==> digits_num(s@.subrange(i as int, k as int)) > u64::MAX,
        decreases j - k,
    {
        let d = digit_of(s[k]);
        proof {
            assert(s@.subrange(i as int, k + 1).drop_last() =~= s@.subrange(i as int, k as int));
            assert(s@.subrange(i as int, k + 1).last() == s@[k as int]);
        }
        if !over {
            match acc.checked_mul(10) {
                Some(m) => match m.checked_add(d) {
                    Some(a) => {
                        acc = a;
                    },
                    None => {
                        over = true;
                    },
                },
                None => {
                    over = true;
                },
            }
        }
        k = k + 1;
    }
    if over {
        0
    } else {
        acc
    }
}

pub proof fn lemma_release_scan_bound(r: Seq<char>)
    ensures
        0 <= release_scan(r).1 <= r.len(),
    decreases r.len(),
{
    let d = digit_run(r);
    if d > 0 && d < r.len() && r[d] == '.' {
        lemma_release_scan_bound(r.skip(d + 1));
    }
}

impl LooseVersion {
    pub fn parse(value: &[char]) -> (r: Self)
        ensures
            r.release@ == loose_release(value@),
            r.suffix@ == loose_suffix(value@),
    {
        let t = trimmed(value);
        let sv = strip_v_exec(t.as_slice());
        let len = sv.len();
        let v = match last_index_exec(sv.as_slice(), '!') {
            Some(i) => slice_of(sv.as_slice(), i + 1, len),
            None => sv,
        };
        let v = v.as_slice();
        let n = v.len();
        let mut release: Vec<u64> = Vec::new();
        let mut pos: usize = 0;
        let mut consumed: usize = 0;
        let mut done = false;
        proof {
            assert(v@.skip(0) =~= v@);
            assert(release@ + release_scan(v@).0 =~= release_scan(v@).0);
        }
        while !done
            invariant
                n == v@.len(),
                pos <= n,
                !done ==> release_scan(v@) == (release@ + release_scan(v@.skip(pos as int)).0, pos
                    + release_scan(v@.skip(pos as int)).1),
                done ==> release_scan(v@) == (release@, consumed as int),
                done ==> consumed <= n,
            decreases n - pos + (if done { 0int } else { 1int }),
        {
            let ghost r = v@.skip(pos as int);
            let mut k = pos;
            while k < n && '0' <= v[k] && v[k] <= '9'
                invariant
                    pos <= k <= n == v@.len(),
                    forall|j: int| pos <= j < k ==> is_digit(#[trigger] v@[j]),
                decreases n - k,
            {
                k = k + 1;
            }
            let d = k - pos;
            proof {
                assert forall|j: int| 0 <= j < d implies is_digit(#[trigger] r[j]) by {
                    assert(r[j] == v@[pos + j]);
                }
                if d < r.len() {
                    assert(r[d as int] == v@[k as int]);
                }
                lemma_span_len(r, |c: char| is_digit(c), d as int);
                assert(r.take(d as int) =~= v@.subrange(pos as int, k as int));
            }
            if d == 0 {
                consumed = pos;
                done = true;
                proof {
                    assert(release@ + seq![] =~= release@);
                }
            } else {
                let val = segment_value_exec(v, pos, k);
                if k < n && v[k] == '.' {
                    proof {
                        assert(r[d as int] == '.');
                        assert(r.skip(d + 1) =~= v@.skip(k + 1));
                        assert(release@.push(val) + release_scan(v@.skip(k + 1)).0 =~= release@ + (
                        seq![val] + release_scan(v@.skip(k + 1)).0));
                    }
                    release.push(val);
                    pos = k + 1;
                } else {
                    proof {
                        assert(release@.push(val) =~= release@ + seq![val]);
                    }
                    release.push(val);
                    consumed = k;
                    done = true;
                }
            }
        }
        let ghost full = release@;
        while release.len() > 0 && release[release.len() - 1] == 0
            invariant
                strip_zeros(full) == strip_zeros(release@),
            decreases release.len(),
        {
            release.pop();
        }
        proof {
            assert(strip_zeros(release@) == release@);
        }
        if release.len() == 0 {
            release.push(0);
            assert(release@ =~= seq![0u64]);
        }
        let rest = slice_of(v, consumed, n);
        proof {
            assert(rest@ =~= v@.skip(consumed as int));
        }
        let suffix = lowercase(rest.as_slice());
        LooseVersion { release, suffix }
    }

    /// Compares two loose versions: -1, 0 or 1.
    pub fn compare(&self, other: &Self) -> (r: i8)
        ensures
            r == loose_order(self.release@, self.suffix@, other.release@, other.suffix@),
    {
        let a = &self.release;
        let b = &other.release;
        let len = if a.len() > b.len() {
            a.len()
        } else {
            b.len()
        };
        let mut i: usize = 0;
        while i < len
            invariant
                a@ == self.release@,
                b@ == other.release@,
                len == max_len(a@, b@),
                i <= len,
                release_order(a@, b@, 0) == release_order(a@, b@, i as int),
            decreases len - i,
        {
            let x = if i < a.len() {
                a[i]
            } else {
                0
            };
            let y = if i < b.len() {
                b[i]
            } else {
                0
            };
            assert(x == rel_at(a@, i as int) && y == rel_at(b@, i as int));
            if x < y {
                assert(release_order(a@, b@, i as int) == -1);
                return -1;
            }
            if x > y {
                assert(release_order(a@, b@, i as int) == 1);
                return 1;
            }
            assert(release_order(a@, b@, i as int) == release_order(a@, b@, i + 1));
            i = i + 1;
        }
        assert(release_order(a@, b@, len as int) == 0);
        let sa = self.suffix.as_slice();
        let sb = other.suffix.as_slice();
        if sa.len() == 0 && sb.len() > 0 {
            return 1;
        }
        if sa.len() > 0 && sb.len() == 0 {
            return -1;
        }
        let mut j: usize = 0;
        proof {
            assert(sa@.skip(0) =~= sa@);
            assert(sb@.skip(0) =~= sb@);
        }
        while j < sa.len() && j < sb.len()
            invariant
                sa@ == self.suffix@,
                sb@ == other.suffix@,
                release_order(self.release@, other.release@, 0) == 0,
                sa@.len() == 0 <==> sb@.len() == 0,
                j <= sa@.len(),
                j <= sb@.len(),
                text_order(sa@, sb@) == text_order(sa@.skip(j as int), sb@.skip(j as int)),
            decreases sa.len() - j,
        {
            proof {
                assert(sa@.skip(j as int).drop_first() =~= sa@.skip(j + 1));
                assert(sb@.skip(j as int).drop_first() =~= sb@.skip(j + 1));
            }
            assert(sa@.skip(j as int)[0] == sa@[j as int]);
            assert(sb@.skip(j as int)[0] == sb@[j as int]);
            if sa[j] < sb[j] {
                assert(text_order(sa@.skip(j as int), sb@.skip(j as int)) == -1);
                return -1;
            }
            if sa[j] > sb[j] {
                assert(text_order(sa@.skip(j as int), sb@.skip(j as int)) == 1);
                return 1;
            }
            j = j + 1;
        }
        if j < sa.len() {
            1
        } else if j < sb.len() {
            -1
        } else {
            0
        }
    }
}

/// Orders two version strings loosely: release numbers compare numerically
/// with missing numbers as 0, a pre-release style suffix ranks below none.
pub fn compare_versions(left: &str, right: &str) -> (r: Ordering)
    ensures
        (r == Ordering::Less) == (version_order(left@, right@) < 0),
        (r == Ordering::Equal) == (version_order(left@, right@) == 0),
        (r == Ordering::Greater) == (version_order(left@, right@) > 0),
{
    let l = chars_of(left);
    let g = chars_of(right);
    let o = compare_chars(l.as_slice(), g.as_slice());
    if o < 0 {
        Ordering::Less
    } else if o == 0 {
        Ordering::Equal
    } else {
        Ordering::Greater
    }
}

/// `compare_versions` on characters: -1, 0 or 1.
pub fn compare_chars(left: &[char], right: &[char]) -> (r: i8)
    ensures
        r == version_order(left@, right@),
{
    let a = LooseVersion::parse(left);
    let b = LooseVersion::parse(right);
    a.compare(&b)
}

// ---------------------------------------------------------------------------
// Status and replacement
// ---------------------------------------------------------------------------

/// The version a declaration is pinned to, by its syntax.
pub open spec fn spec_requirement_anchor(syntax: RequirementSyntax, raw: Seq<char>) -> Option<
    Seq<char>,
> {
    match syntax {
        RequirementSyntax::Pep508 => match pep508_model(raw) {
            None => None,
            Some((_, s, e)) => if is_direct(raw.subrange(s, e)) {
                None
            } else {
                spec_constraint_anchor(raw.subrange(s, e))
            },
        },
        RequirementSyntax::Node => {
            let t = trim(raw);
            if starts_with(t, npm_prefix()) {
                match spec_split_npm_alias(t.skip(4)).1 {
                    Some(range) => spec_constraint_anchor(range),
                    None => None,
                }
            } else {
                spec_constraint_anchor(t)
            }
        },
        RequirementSyntax::PythonConstraint => spec_constraint_anchor(raw),
    }
}

fn requirement_anchor(syntax: RequirementSyntax, raw: &[char]) -> (r: Option<Vec<char>>)
    ensures
        vopt(r) == spec_requirement_anchor(syntax, raw@),
{
    match syntax {
        RequirementSyntax::Pep508 => match parse_pep508_chars(raw) {
            None => None,
            Some((_, s, e)) => {
                let spec = slice_of(raw, s, e);
                if spec.len() > 0 && spec[0] == '@' {
                    None
                } else {
                    constraint_anchor(spec.as_slice())
                }
            },
        },
        RequirementSyntax::Node => {
            let t = trimmed(raw);
            let npm = npm_prefix_exec();
            if has_prefix(t.as_slice(), npm.as_slice()) {
                let alias = slice_of(t.as_slice(), 4, t.len());
                assert(alias@ =~= t@.skip(4));
                let (_, range) = split_npm_alias(alias.as_slice());
                match range {
                    Some(range) => constraint_anchor(range.as_slice()),
                    None => None,
                }
            } else {
                constraint_anchor(t.as_slice())
            }
        },
        RequirementSyntax::PythonConstraint => constraint_anchor(raw),
    }
}

pub open spec fn msg_complex() -> Seq<char> {
    "the version range is too complex to rewrite safely"@
}

pub open spec fn msg_ahead() -> Seq<char> {
    "the declared version is newer than the registry latest tag"@
}

/// The report status of a declaration against the registry's latest
/// version, with its message. A declaration that cannot be rewritten
/// safely (an upper bound such as `<2`, an exclusion, a wildcard, a direct
/// reference, ...) is skipped with the reason, whatever the latest version.
pub open spec fn spec_requirement_status(d: Dependency, latest: Seq<char>) -> (
    ReportStatus,
    Option<Seq<char>>,
) {
    match d.skip_reason {
        Some(reason) => (ReportStatus::Skipped, Some(reason@)),
        None => if spec_is_unconstrained(d.syntax, d.requirement@) {
            (ReportStatus::Unconstrained, None)
        } else {
            match spec_requirement_anchor(d.syntax, d.raw@) {
                None => (ReportStatus::Skipped, Some(msg_complex())),
                Some(anchor) => if spec_rewrite(d, latest) is Err {
                    (ReportStatus::Skipped, Some(spec_rewrite(d, latest)->Err_0))
                } else {
                    let o = version_order(anchor, latest);
                    if o < 0 {
                        (ReportStatus::Outdated, None)
                    } else if o == 0 {
                        (ReportStatus::Current, None)
                    } else {
                        (ReportStatus::Ahead, Some(msg_ahead()))
                    }
                },
            }
        },
    }
}

pub fn requirement_status(dependency: &Dependency, latest: &str) -> (r: (
    ReportStatus,
    Option<String>,
))
    ensures
        (r.0, sopt(r.1)) == spec_requirement_status(*dependency, latest@),
{
    if let Some(reason) = &dependency.skip_reason {
        return (ReportStatus::Skipped, Some(reason.clone()));
    }
    let requirement = chars_of_string_local(&dependency.requirement);
    if is_unconstrained(dependency.syntax, requirement.as_slice()) {
        return (ReportStatus::Unconstrained, None);
    }
    let raw = chars_of_string_local(&dependency.raw);
    let anchor = match requirement_anchor(dependency.syntax, raw.as_slice()) {
        Some(a) => a,
        None => {
            return (
                ReportStatus::Skipped,
                Some(crate::text::owned("the version range is too complex to rewrite safely")),
            );
        },
    };
    let l = chars_of(latest);
    match rewrite_declaration(dependency, l.as_slice()) {
        Err(e) => {
            return (ReportStatus::Skipped, Some(string_of(e.as_slice())));
        },
        Ok(_) => {},
    }
    let o = compare_chars(anchor.as_slice(), l.as_slice());
    if o < 0 {
        (ReportStatus::Outdated, None)
    } else if o == 0 {
        (ReportStatus::Current, None)
    } else {
        (
            ReportStatus::Ahead,
            Some(crate::text::owned("the declared version is newer than the registry latest tag")),
        )
    }
}

fn chars_of_string_local(s: &String) -> (v: Vec<char>)
    ensures
        v@ == s@,
{
    crate::text::chars_of_string(s)
}

pub open spec fn msg_cannot_update() -> Seq<char> {
    "dependency cannot be updated safely"@
}

pub open spec fn msg_invalid_pep508() -> Seq<char> {
    "invalid PEP 508 dependency"@
}

pub open spec fn msg_direct() -> Seq<char> {
    "direct URL dependencies are not rewritten"@
}

/// Views a replacement outcome.
pub open spec fn sres_opt(r: Result<Option<String>, String>) -> Result<Option<Seq<char>>, Seq<char>> {
    match r {
        Ok(o) => Ok(sopt(o)),
        Err(e) => Err(e@),
    }
}

pub open spec fn lift_update(r: Result<Seq<char>, Seq<char>>) -> Result<Option<Seq<char>>, Seq<char>> {
    match r {
        Ok(u) => Ok(Some(u)),
        Err(e) => Err(e),
    }
}

/// The declaration rewritten to `latest`, keeping everything but its
/// version (and an npm alias target, extras and markers); the error names
/// why it cannot be rewritten safely. Whether it can does not depend on
/// `latest` (see `rewrite_refusal_ignores_latest`).
pub open spec fn spec_rewrite(d: Dependency, latest: Seq<char>) -> Result<Seq<char>, Seq<char>> {
    let raw = d.raw@;
    match d.syntax {
        RequirementSyntax::Node => spec_update_node_requirement(raw, latest),
        RequirementSyntax::PythonConstraint => spec_update_single_constraint(
            raw,
            latest,
            ConstraintKind::Python,
        ),
        RequirementSyntax::Pep508 => match pep508_model(raw) {
            None => Err(msg_invalid_pep508()),
            Some((_, s, e)) => if is_direct(raw.subrange(s, e)) {
                Err(msg_direct())
            } else {
                match spec_update_single_constraint(raw.subrange(s, e), latest, ConstraintKind::Python) {
                    Err(x) => Err(x),
                    Ok(c) => Ok(raw.take(s) + c + raw.skip(e)),
                }
            },
        },
    }
}

/// Whether rewriting a declaration is refused does not depend on the
/// version it would be rewritten to, and neither does the reason.
pub proof fn rewrite_refusal_ignores_latest(d: Dependency, a: Seq<char>, b: Seq<char>)
    ensures
        spec_rewrite(d, a) is Err <==> spec_rewrite(d, b) is Err,
        spec_rewrite(d, a) is Err ==> spec_rewrite(d, a) == spec_rewrite(d, b),
{
}

/// The declaration text that replaces an outdated declaration: none unless
/// the status is outdated (an error for skipped declarations), otherwise the
/// declaration with only its version rewritten to `latest`.
pub open spec fn spec_replacement_for(d: Dependency, latest: Seq<char>) -> Result<
    Option<Seq<char>>,
    Seq<char>,
> {
    let (status, message) = spec_requirement_status(d, latest);
    if status != ReportStatus::Outdated {
        if status == ReportStatus::Skipped {
            Err(
                match message {
                    Some(m) => m,
                    None => msg_cannot_update(),
                },
            )
        } else {
            Ok(None)
        }
    } else {
        lift_update(spec_rewrite(d, latest))
    }
}

/// Rewrites a declaration to `latest` (see `spec_rewrite`).
fn rewrite_declaration(dependency: &Dependency, l: &[char]) -> (r: Result<Vec<char>, Vec<char>>)
    ensures
        vres(r) == spec_rewrite(*dependency, l@),
{
    let raw = chars_of_string_local(&dependency.raw);
    match dependency.syntax {
        RequirementSyntax::Node => update_node_requirement(raw.as_slice(), l),
        RequirementSyntax::PythonConstraint => update_constraint_chars(
            raw.as_slice(),
            l,
            ConstraintKind::Python,
        ),
        RequirementSyntax::Pep508 => match parse_pep508_chars(raw.as_slice()) {
            None => Err(lit("invalid PEP 508 dependency")),
            Some((_, s, e)) => {
                let spec = slice_of(raw.as_slice(), s, e);
                if spec.len() > 0 && spec[0] == '@' {
                    return Err(lit("direct URL dependencies are not rewritten"));
                }
                match update_constraint_chars(spec.as_slice(), l, ConstraintKind::Python) {
                    Err(x) => Err(x),
                    Ok(c) => {
                        let mut out = slice_of(raw.as_slice(), 0, s);
                        push_all(&mut out, c.as_slice());
                        let tail = slice_of(raw.as_slice(), e, raw.len());
                        push_all(&mut out, tail.as_slice());
                        proof {
                            assert(tail@ =~= raw@.skip(e as int));
                        }
                        Ok(out)
                    },
                }
            },
        },
    }
}

pub fn replacement_for(dependency: &Dependency, latest: &str) -> (r: Result<Option<String>, String>)
    ensures
        sres_opt(r) == spec_replacement_for(*dependency, latest@),
{
    let (status, message) = requirement_status(dependency, latest);
    if status != ReportStatus::Outdated {
        return if status == ReportStatus::Skipped {
            match message {
                Some(m) => Err(m),
                None => Err(crate::text::owned("dependency cannot be updated safely")),
            }
        } else {
            Ok(None)
        };
    }
    let l = chars_of(latest);
    match rewrite_declaration(dependency, l.as_slice()) {
        Ok(u) => Ok(Some(string_of(u.as_slice()))),
        Err(e) => Err(string_of(e.as_slice())),
    }
}

// ---------------------------------------------------------------------------
// Laws of the version order
// ---------------------------------------------------------------------------

pub proof fn lemma_text_order_antisymmetric(a: Seq<char>, b: Seq<char>)
    ensures
        text_order(a, b) == -text_order(b, a),
        -1 <= text_order(a, b) <= 1,
    decreases a.len(),
{
    if a.len() > 0 && b.len() > 0 && a[0] == b[0] {
        lemma_text_order_antisymmetric(a.drop_first(), b.drop_first());
    }
}

pub proof fn lemma_text_order_zero(a: Seq<char>, b: Seq<char>)
    ensures
        text_order(a, b) == 0 <==> a == b,
    decreases a.len(),
{
    if a.len() > 0 && b.len() > 0 && a[0] == b[0] {
        lemma_text_order_zero(a.drop_first(), b.drop_first());
        if a.drop_first() == b.drop_first() {
            assert(a =~= seq![a[0]] + a.drop_first());
            assert(b =~= seq![b[0]] + b.drop_first());
        }
        if a == b {
            assert(a.drop_first() =~= b.drop_first());
        }
    } else if a.len() > 0 && b.len() > 0 {
        if a == b {
            assert(a[0] == b[0]);
        }
    } else if a.len() == 0 && b.len() == 0 {
        assert(a =~= b);
    }
}

pub proof fn lemma_text_order_transitive(a: Seq<char>, b: Seq<char>, c: Seq<char>)
    requires
        text_order(a, b) <= 0,
        text_order(b, c) <= 0,
    ensures
        text_order(a, c) <= 0,
        text_order(a, b) < 0 || text_order(b, c) < 0 ==> text_order(a, c) < 0,
    decreases a.len(),
{
    if a.len() > 0 && b.len() > 0 && c.len() > 0 && a[0] == b[0] && b[0] == c[0] {
        lemma_text_order_transitive(a.drop_first(), b.drop_first(), c.drop_first());
    }
}

/// `release_order` with an explicit bound on the indices compared.
pub open spec fn release_order_upto(a: Seq<u64>, b: Seq<u64>, i: int, n: int) -> int
    decreases n - i,
{
    if i < 0 || i >= n {
        0
    } else if rel_at(a, i) < rel_at(b, i) {
        -1
    } else if rel_at(a, i) > rel_at(b, i) {
        1
    } else {
        release_order_upto(a, b, i + 1, n)
    }
}

proof fn lemma_release_order_upto(a: Seq<u64>, b: Seq<u64>, i: int, n: int)
    requires
        0 <= i,
        n >= max_len(a, b),
    ensures
        release_order(a, b, i) == release_order_upto(a, b, i, n),
    decreases n - i,
{
    if i < n {
        lemma_release_order_upto(a, b, i + 1, n);
    }
}

proof fn lemma_release_upto_laws(a: Seq<u64>, b: Seq<u64>, c: Seq<u64>, i: int, n: int)
    ensures
        release_order_upto(a, b, i, n) == -release_order_upto(b, a, i, n),
        -1 <= release_order_upto(a, b, i, n) <= 1,
        release_order_upto(a, a, i, n) == 0,
        release_order_upto(a, b, i, n) <= 0 && release_order_upto(b, c, i, n) <= 0
            ==> release_order_upto(a, c, i, n) <= 0,
        release_order_upto(a, b, i, n) == 0 && release_order_upto(b, c, i, n) == 0
            ==> release_order_upto(a, c, i, n) == 0,
        (release_order_upto(a, b, i, n) < 0 && release_order_upto(b, c, i, n) <= 0) || (
        release_order_upto(a, b, i, n) <= 0 && release_order_upto(b, c, i, n) < 0)
            ==> release_order_upto(a, c, i, n) < 0,
    decreases n - i,
{
    if 0 <= i < n {
        lemma_release_upto_laws(a, b, c, i + 1, n);
    }
}

/// Suffix part of the loose order: no suffix ranks above any suffix.
pub open spec fn suffix_order(sa: Seq<char>, sb: Seq<char>) -> int {
    if sa.len() == 0 && sb.len() > 0 {
        1
    } else if sa.len() > 0 && sb.len() == 0 {
        -1
    } else {
        text_order(sa, sb)
    }
}

proof fn lemma_suffix_order_laws(a: Seq<char>, b: Seq<char>, c: Seq<char>)
    ensures
        suffix_order(a, b) == -suffix_order(b, a),
        suffix_order(a, a) == 0,
        suffix_order(a, b) <= 0 && suffix_order(b, c) <= 0 ==> suffix_order(a, c) <= 0,
{
    lemma_text_order_antisymmetric(a, b);
    lemma_text_order_zero(a, a);
    if suffix_order(a, b) <= 0 && suffix_order(b, c) <= 0 {
        if a.len() > 0 && b.len() > 0 && c.len() > 0 {
            lemma_text_order_transitive(a, b, c);
        }
    }
}

/// A version compares equal to itself.
pub proof fn version_order_reflexive(x: Seq<char>)
    ensures
        version_order(x, x) == 0,
{
    let r = loose_release(x);
    lemma_release_order_upto(r, r, 0, max_len(r, r));
    lemma_release_upto_laws(r, r, r, 0, max_len(r, r));
    lemma_suffix_order_laws(loose_suffix(x), loose_suffix(x), loose_suffix(x));
}

/// Swapping the versions negates the comparison.
pub proof fn version_order_antisymmetric(x: Seq<char>, y: Seq<char>)
    ensures
        version_order(x, y) == -version_order(y, x),
        -1 <= version_order(x, y) <= 1,
{
    let (rx, ry) = (loose_release(x), loose_release(y));
    let n = max_len(rx, ry);
    lemma_release_order_upto(rx, ry, 0, n);
    lemma_release_order_upto(ry, rx, 0, n);
    lemma_release_upto_laws(rx, ry, ry, 0, n);
    lemma_suffix_order_laws(loose_suffix(x), loose_suffix(y), loose_suffix(y));
    lemma_text_order_antisymmetric(loose_suffix(x), loose_suffix(y));
}

/// The version order is transitive: with reflexivity and antisymmetry it
/// makes `compare_versions` a total preorder.
pub proof fn version_order_transitive(x: Seq<char>, y: Seq<char>, z: Seq<char>)
    requires
        version_order(x, y) <= 0,
        version_order(y, z) <= 0,
    ensures
        version_order(x, z) <= 0,
{
    let (rx, ry, rz) = (loose_release(x), loose_release(y), loose_release(z));
    let n = max_len(rx, ry) + max_len(ry, rz) + max_len(rx, rz);
    lemma_release_order_upto(rx, ry, 0, n);
    lemma_release_order_upto(ry, rz, 0, n);
    lemma_release_order_upto(rx, rz, 0, n);
    lemma_release_upto_laws(rx, ry, rz, 0, n);
    lemma_suffix_order_laws(loose_suffix(x), loose_suffix(y), loose_suffix(z));
}

/// Compares two character sequences by code point: -1, 0 or 1.
pub fn text_order_exec(sa: &[char], sb: &[char]) -> (r: i8)
    ensures
        r == text_order(sa@, sb@),
{
    let mut j: usize = 0;
    proof {
        assert(sa@.skip(0) =~= sa@);
        assert(sb@.skip(0) =~= sb@);
    }
    while j < sa.len() && j < sb.len()
        invariant
            j <= sa@.len(),
            j <= sb@.len(),
            text_order(sa@, sb@) == text_order(sa@.skip(j as int), sb@.skip(j as int)),
        decreases sa.len() - j,
    {
        proof {
            assert(sa@.skip(j as int).drop_first() =~= sa@.skip(j + 1));
            assert(sb@.skip(j as int).drop_first() =~= sb@.skip(j + 1));
        }
        assert(sa@.skip(j as int)[0] == sa@[j as int]);
        assert(sb@.skip(j as int)[0] == sb@[j as int]);
        if sa[j] < sb[j] {
            assert(text_order(sa@.skip(j as int), sb@.skip(j as int)) == -1);
            return -1;
        }
        if sa[j] > sb[j] {
            assert(text_order(sa@.skip(j as int), sb@.skip(j as int)) == 1);
            return 1;
        }
        j = j + 1;
    }
    if j < sa.len() {
        1
    } else if j < sb.len() {
        -1
    } else {
        0
    }
}

} // verus!
