//! Report summaries and the text of the human-readable table.
//!
//! Both output formats are derived from the same `ReportRow` list so that
//! automation sees the same status decisions that a terminal user sees.

use vstd::prelude::*;
use crate::model::{ReportRow, ReportStatus, ecosystem_label, status_label};
use crate::text::{chars_of, chars_of_string, push_all, slice_of, string_of};

verus! {

/// How many rows have each status.
#[derive(Clone, Copy, Debug)]
pub struct Summary {
    pub total: usize,
    pub current: usize,
    pub outdated: usize,
    pub ahead: usize,
    pub unconstrained: usize,
    pub skipped: usize,
    pub errors: usize,
}

/// Number of rows with status `s`.
pub open spec fn count_status(rows: Seq<ReportRow>, s: ReportStatus) -> nat
    decreases rows.len(),
{
    if rows.len() == 0 {
        0
    } else {
        count_status(rows.drop_last(), s) + if rows.last().status == s {
            1nat
        } else {
            0nat
        }
    }
}

pub proof fn lemma_count_status_bound(rows: Seq<ReportRow>, s: ReportStatus)
    ensures
        count_status(rows, s) <= rows.len(),
    decreases rows.len(),
{
    if rows.len() > 0 {
        lemma_count_status_bound(rows.drop_last(), s);
    }
}

/// Every row has exactly one status, so the counts add up to the total.
pub proof fn status_counts_partition_rows(rows: Seq<ReportRow>)
    ensures
        count_status(rows, ReportStatus::Current) + count_status(rows, ReportStatus::Outdated)
            + count_status(rows, ReportStatus::Ahead) + count_status(
            rows,
            ReportStatus::Unconstrained,
        ) + count_status(rows, ReportStatus::Skipped) + count_status(rows, ReportStatus::Error)
            == rows.len(),
    decreases rows.len(),
{
    if rows.len() > 0 {
        status_counts_partition_rows(rows.drop_last());
    }
}

impl Summary {
    /// Counts each status once, for exit codes and report consumers.
    pub fn from_rows(rows: &[ReportRow]) -> (r: Summary)
        ensures
            r.total == rows@.len(),
            r.current == count_status(rows@, ReportStatus::Current),
            r.outdated == count_status(rows@, ReportStatus::Outdated),
            r.ahead == count_status(rows@, ReportStatus::Ahead),
            r.unconstrained == count_status(rows@, ReportStatus::Unconstrained),
            r.skipped == count_status(rows@, ReportStatus::Skipped),
            r.errors == count_status(rows@, ReportStatus::Error),
    {
        let mut summary = Summary {
            total: rows.len(),
            current: 0,
            outdated: 0,
            ahead: 0,
            unconstrained: 0,
            skipped: 0,
            errors: 0,
        };
        let mut i: usize = 0;
        while i < rows.len()
            invariant
                i <= rows@.len(),
                summary.total == rows@.len(),
                summary.current == count_status(rows@.take(i as int), ReportStatus::Current),
                summary.outdated == count_status(rows@.take(i as int), ReportStatus::Outdated),
                summary.ahead == count_status(rows@.take(i as int), ReportStatus::Ahead),
                summary.unconstrained == count_status(
                    rows@.take(i as int),
                    ReportStatus::Unconstrained,
                ),
                summary.skipped == count_status(rows@.take(i as int), ReportStatus::Skipped),
                summary.errors == count_status(rows@.take(i as int), ReportStatus::Error),
            decreases rows.len() - i,
        {
            proof {
                assert(rows@.take(i + 1).drop_last() =~= rows@.take(i as int));
                assert(rows@.take(i + 1).last() == rows@[i as int]);
                lemma_count_status_bound(rows@.take(i as int), rows@[i as int].status);
            }
            match rows[i].status {
                ReportStatus::Current => summary.current = summary.current + 1,
                ReportStatus::Outdated => summary.outdated = summary.outdated + 1,
                ReportStatus::Ahead => summary.ahead = summary.ahead + 1,
                ReportStatus::Unconstrained => summary.unconstrained = summary.unconstrained + 1,
                ReportStatus::Skipped => summary.skipped = summary.skipped + 1,
                ReportStatus::Error => summary.errors = summary.errors + 1,
            }
            i = i + 1;
        }
        assert(rows@.take(rows@.len() as int) =~= rows@);
        summary
    }
}

/// `s` cut to at most `max` characters, ending in `...` when cut.
pub open spec fn spec_truncate(s: Seq<char>, max: nat) -> Seq<char> {
    if s.len() <= max {
        s
    } else {
        s.take(if max >= 3 {
            max - 3
        } else {
            0
        }) + seq!['.', '.', '.']
    }
}

/// Cuts a table cell to `max` characters (not bytes, so UTF-8 is never
/// split).
pub fn truncate(value: &str, max: usize) -> (r: String)
    ensures
        r@ == spec_truncate(value@, max as nat),
{
    let v = chars_of(value);
    let r = truncate_chars(v.as_slice(), max);
    string_of(r.as_slice())
}

fn truncate_chars(v: &[char], max: usize) -> (r: Vec<char>)
    ensures
        r@ == spec_truncate(v@, max as nat),
{
    if v.len() <= max {
        return slice_of(v, 0, v.len());
    }
    let keep = if max >= 3 {
        max - 3
    } else {
        0
    };
    let mut out = slice_of(v, 0, keep);
    out.push('.');
    out.push('.');
    out.push('.');
    assert(out@ =~= v@.take(keep as int) + seq!['.', '.', '.']);
    out
}

/// `n` spaces.
pub open spec fn spaces(n: int) -> Seq<char> {
    Seq::new(if n > 0 {
        n as nat
    } else {
        0
    }, |i: int| ' ')
}

/// `s` left-aligned in a field of `w` characters (`{:<w}`).
pub open spec fn pad(s: Seq<char>, w: int) -> Seq<char> {
    s + spaces(w - s.len())
}

fn push_padded(out: &mut Vec<char>, s: &[char], w: usize)
    ensures
        final(out)@ == old(out)@ + pad(s@, w as int),
{
    push_all(out, s);
    let mut k = s.len();
    let ghost mid = out@;
    while k < w
        invariant
            s@.len() <= k <= w || (k == s@.len() && k >= w),
            out@ == mid + spaces(k - s@.len()),
        decreases w - k,
    {
        out.push(' ');
        k = k + 1;
        assert(out@ =~= mid + spaces(k - s@.len()));
    }
    assert(spaces(k - s@.len()) =~= spaces(w - s@.len()));
}

/// Decimal digits of `n` (`Display for usize`).
pub open spec fn decimal(n: nat) -> Seq<char>
    decreases n,
{
    if n < 10 {
        seq![((48 + n) as u8) as char]
    } else {
        decimal(n / 10) + seq![((48 + n % 10) as u8) as char]
    }
}

pub fn decimal_exec(n: usize) -> (r: Vec<char>)
    ensures
        r@ == decimal(n as nat),
    decreases n,
{
    let d = (n % 10) as u8;
    let c = (48 + d) as char;
    if n < 10 {
        let r = vec![c];
        assert(r@ =~= seq![c]);
        r
    } else {
        let mut r = decimal_exec(n / 10);
        r.push(c);
        r
    }
}

pub open spec fn opt_or_dash(o: Option<String>) -> Seq<char> {
    match o {
        Some(s) => s@,
        None => seq!['-'],
    }
}

pub open spec fn message_part(o: Option<String>) -> Seq<char> {
    match o {
        Some(m) => seq![' ', '('] + m@ + seq![')'],
        None => seq![],
    }
}

pub open spec fn sep2() -> Seq<char> {
    seq![' ', ' ']
}

/// The table's column heading line.
pub open spec fn table_header() -> Seq<char> {
    pad("ECO"@, 8) + sep2() + pad("MANIFEST"@, 28) + sep2() + pad("GROUP"@, 24) + sep2() + pad(
        "PACKAGE"@,
        24,
    ) + sep2() + pad("CURRENT"@, 16) + sep2() + pad("LATEST"@, 16) + sep2() + "STATUS"@
}

/// The ruler line.
pub open spec fn table_rule() -> Seq<char> {
    Seq::new(134, |i: int| '-')
}

/// The table line of one report row.
pub open spec fn table_row(row: ReportRow) -> Seq<char> {
    pad(ecosystem_label(row.ecosystem), 8) + sep2() + pad(spec_truncate(row.manifest@, 28), 28)
        + sep2() + pad(spec_truncate(row.group@, 24), 24) + sep2() + pad(
        spec_truncate(row.package@, 24),
        24,
    ) + sep2() + pad(spec_truncate(row.current@, 16), 16) + sep2() + pad(
        spec_truncate(opt_or_dash(row.latest), 16),
        16,
    ) + sep2() + status_label(row.status) + message_part(row.message)
}

/// The closing summary line.
pub open spec fn table_footer(rows: Seq<ReportRow>) -> Seq<char> {
    decimal(rows.len()) + " dependencies, "@ + decimal(count_status(rows, ReportStatus::Outdated))
        + " outdated, "@ + decimal(count_status(rows, ReportStatus::Current)) + " current, "@
        + decimal(count_status(rows, ReportStatus::Skipped)) + " skipped, "@ + decimal(
        count_status(rows, ReportStatus::Error),
    ) + " errors"@
}

/// The lines of the table report: a heading, a ruler, one line per row, a
/// ruler and the counts; or a single line when there are no rows.
pub open spec fn table_lines(rows: Seq<ReportRow>) -> Seq<Seq<char>> {
    if rows.len() == 0 {
        seq!["No dependencies found."@]
    } else {
        seq![table_header(), table_rule()] + rows.map_values(|r: ReportRow| table_row(r)) + seq![
            table_rule(),
            table_footer(rows),
        ]
    }
}

fn lit(s: &str) -> (v: Vec<char>)
    ensures
        v@ == s@,
{
    chars_of(s)
}

fn rule_line() -> (r: Vec<char>)
    ensures
        r@ == table_rule(),
{
    let mut r: Vec<char> = Vec::new();
    let mut i: usize = 0;
    while i < 134
        invariant
            i <= 134,
            r@ == Seq::new(i as nat, |j: int| '-'),
        decreases 134 - i,
    {
        r.push('-');
        i = i + 1;
        assert(r@ =~= Seq::new(i as nat, |j: int| '-'));
    }
    r
}

fn header_line() -> (r: Vec<char>)
    ensures
        r@ == table_header(),
{
    let two = vec![' ', ' '];
    assert(two@ =~= sep2());
    let mut r: Vec<char> = Vec::new();
    push_padded(&mut r, lit("ECO").as_slice(), 8);
    push_all(&mut r, two.as_slice());
    push_padded(&mut r, lit("MANIFEST").as_slice(), 28);
    push_all(&mut r, two.as_slice());
    push_padded(&mut r, lit("GROUP").as_slice(), 24);
    push_all(&mut r, two.as_slice());
    push_padded(&mut r, lit("PACKAGE").as_slice(), 24);
    push_all(&mut r, two.as_slice());
    push_padded(&mut r, lit("CURRENT").as_slice(), 16);
    push_all(&mut r, two.as_slice());
    push_padded(&mut r, lit("LATEST").as_slice(), 16);
    push_all(&mut r, two.as_slice());
    push_all(&mut r, lit("STATUS").as_slice());
    assert(r@ =~= table_header());
    r
}

fn row_line(row: &ReportRow) -> (r: Vec<char>)
    ensures
        r@ == table_row(*row),
{
    let two = vec![' ', ' '];
    assert(two@ =~= sep2());
    let mut r: Vec<char> = Vec::new();
    let eco = chars_of_string(&row.ecosystem.label());
    push_padded(&mut r, eco.as_slice(), 8);
    push_all(&mut r, two.as_slice());
    let m = truncate_chars(chars_of_string(&row.manifest).as_slice(), 28);
    push_padded(&mut r, m.as_slice(), 28);
    push_all(&mut r, two.as_slice());
    let g = truncate_chars(chars_of_string(&row.group).as_slice(), 24);
    push_padded(&mut r, g.as_slice(), 24);
    push_all(&mut r, two.as_slice());
    let p = truncate_chars(chars_of_string(&row.package).as_slice(), 24);
    push_padded(&mut r, p.as_slice(), 24);
    push_all(&mut r, two.as_slice());
    let c = truncate_chars(chars_of_string(&row.current).as_slice(), 16);
    push_padded(&mut r, c.as_slice(), 16);
    push_all(&mut r, two.as_slice());
    let latest = match &row.latest {
        Some(l) => chars_of_string(l),
        None => {
            let d = vec!['-'];
            assert(d@ =~= seq!['-']);
            d
        },
    };
    let l = truncate_chars(latest.as_slice(), 16);
    push_padded(&mut r, l.as_slice(), 16);
    push_all(&mut r, two.as_slice());
    push_all(&mut r, chars_of_string(&row.status.label()).as_slice());
    match &row.message {
        Some(msg) => {
            r.push(' ');
            r.push('(');
            push_all(&mut r, chars_of_string(msg).as_slice());
            r.push(')');
        },
        None => {},
    }
    assert(r@ =~= table_row(*row));
    r
}

fn footer_line(rows: &[ReportRow]) -> (r: Vec<char>)
    ensures
        r@ == table_footer(rows@),
{
    let s = Summary::from_rows(rows);
    let mut r = decimal_exec(s.total);
    push_all(&mut r, lit(" dependencies, ").as_slice());
    push_all(&mut r, decimal_exec(s.outdated).as_slice());
    push_all(&mut r, lit(" outdated, ").as_slice());
    push_all(&mut r, decimal_exec(s.current).as_slice());
    push_all(&mut r, lit(" current, ").as_slice());
    push_all(&mut r, decimal_exec(s.skipped).as_slice());
    push_all(&mut r, lit(" skipped, ").as_slice());
    push_all(&mut r, decimal_exec(s.errors).as_slice());
    push_all(&mut r, lit(" errors").as_slice());
    assert(r@ =~= table_footer(rows@));
    r
}

/// The lines of the table report, for printing one per line.
pub fn table_report(rows: &[ReportRow]) -> (r: Vec<String>)
    ensures
        crate::model::strings_view(r@) == table_lines(rows@),
{
    let mut out: Vec<String> = Vec::new();
    if rows.len() == 0 {
        out.push(crate::text::owned("No dependencies found."));
        assert(crate::model::strings_view(out@) =~= table_lines(rows@));
        return out;
    }
    out.push(string_of(header_line().as_slice()));
    out.push(string_of(rule_line().as_slice()));
    let mut i: usize = 0;
    while i < rows.len()
        invariant
            i <= rows@.len(),
            crate::model::strings_view(out@) == seq![table_header(), table_rule()]
                + rows@.take(i as int).map_values(|r: ReportRow| table_row(r)),
        decreases rows.len() - i,
    {
        let line = row_line(&rows[i]);
        let s = string_of(line.as_slice());
        let ghost old_out = out@;
        out.push(s);
        i = i + 1;
        proof {
            assert(rows@.take(i as int).map_values(|r: ReportRow| table_row(r)) =~= rows@.take(
                i - 1,
            ).map_values(|r: ReportRow| table_row(r)).push(table_row(rows@[i - 1])));
            assert(crate::model::strings_view(out@) =~= crate::model::strings_view(old_out).push(
                s@,
            ));
        }
    }
    out.push(string_of(rule_line().as_slice()));
    out.push(string_of(footer_line(rows).as_slice()));
    proof {
        assert(rows@.take(rows@.len() as int) =~= rows@);
        assert(crate::model::strings_view(out@) =~= table_lines(rows@));
    }
    out
}

} // verus!
