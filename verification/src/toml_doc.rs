//! TOML documents: what the manifest parsers read from them, and where
//! their values sit in the text, which rendering updates needs.
//!
//! `toml_edit` parses documents and writes string values. For reading, a document is
//! converted into `TomlItem` values that hold, as plain data, what the parsers
//! look at: strings, arrays, tables and inline tables, each in document order.

use vstd::prelude::*;
use crate::text::{chars_of_string, eq_chars};

verus! {

#[verifier::external_type_specification]
#[verifier::external_body]
pub struct ExItem(toml_edit::Item);

#[verifier::external_type_specification]
#[verifier::external_body]
pub struct ExValue(toml_edit::Value);

#[verifier::external_type_specification]
#[verifier::external_body]
pub struct ExTable(toml_edit::Table);

#[verifier::external_type_specification]
#[verifier::external_body]
pub struct ExTomlError(toml_edit::TomlError);

/// A TOML item as far as the manifest parsers read it.
#[derive(Debug)]
pub enum TomlItem {
    /// A string value.
    Str(String),
    /// An inline array of values.
    Array(Vec<TomlItem>),
    /// A `[table]`, with its non-empty entries in document order.
    Table(Vec<(String, TomlItem)>),
    /// An inline `{ ... }` table, with its entries in document order.
    Inline(Vec<(String, TomlItem)>),
    /// Any other item: numbers, booleans, dates, arrays of tables.
    Other,
}

/// The mathematical content of a `TomlItem`.
pub enum TomlView {
    Str(Seq<char>),
    Array(Seq<TomlView>),
    Table(Seq<(Seq<char>, TomlView)>),
    Inline(Seq<(Seq<char>, TomlView)>),
    Other,
}

pub open spec fn toml_view(t: TomlItem) -> TomlView
    decreases t, 0nat,
{
    match t {
        TomlItem::Str(s) => TomlView::Str(s@),
        TomlItem::Array(v) => TomlView::Array(toml_views(v@)),
        TomlItem::Table(v) => TomlView::Table(toml_entry_views(v@)),
        TomlItem::Inline(v) => TomlView::Inline(toml_entry_views(v@)),
        TomlItem::Other => TomlView::Other,
    }
}

pub open spec fn toml_views(s: Seq<TomlItem>) -> Seq<TomlView>
    decreases s, s.len(),
{
    if s.len() == 0 {
        seq![]
    } else {
        proof {
            assert(decreases_to!(s => s[s.len() - 1]));
        }
        toml_views(s.drop_last()).push(toml_view(s[s.len() - 1]))
    }
}

pub open spec fn toml_entry_views(s: Seq<(String, TomlItem)>) -> Seq<(Seq<char>, TomlView)>
    decreases s, s.len(),
{
    if s.len() == 0 {
        seq![]
    } else {
        proof {
            assert(decreases_to!(s => s[s.len() - 1]));
        }
        toml_entry_views(s.drop_last()).push((s[s.len() - 1].0@, toml_view(s[s.len() - 1].1)))
    }
}

pub proof fn lemma_toml_views(s: Seq<TomlItem>)
    ensures
        toml_views(s).len() == s.len(),
        forall|i: int| 0 <= i < s.len() ==> #[trigger] toml_views(s)[i] == toml_view(s[i]),
    decreases s.len(),
{
    if s.len() > 0 {
        lemma_toml_views(s.drop_last());
        assert forall|i: int| 0 <= i < s.len() implies #[trigger] toml_views(s)[i] == toml_view(
            s[i],
        ) by {
            if i < s.len() - 1 {
                assert(s.drop_last()[i] == s[i]);
            }
        }
    }
}

pub proof fn lemma_toml_entry_views(s: Seq<(String, TomlItem)>)
    ensures
        toml_entry_views(s).len() == s.len(),
        forall|i: int|
            0 <= i < s.len() ==> #[trigger] toml_entry_views(s)[i] == (s[i].0@, toml_view(s[i].1)),
    decreases s.len(),
{
    if s.len() > 0 {
        lemma_toml_entry_views(s.drop_last());
        assert forall|i: int| 0 <= i < s.len() implies #[trigger] toml_entry_views(s)[i] == (
        s[i].0@, toml_view(s[i].1)) by {
            if i < s.len() - 1 {
                assert(s.drop_last()[i] == s[i]);
            }
        }
    }
}

/// The value under key `k` in a table's entries (the first such entry).
pub open spec fn entry_get(es: Seq<(Seq<char>, TomlView)>, k: Seq<char>) -> Option<TomlView>
    decreases es.len(),
{
    if es.len() == 0 {
        None
    } else if es[0].0 == k {
        Some(es[0].1)
    } else {
        entry_get(es.drop_first(), k)
    }
}

/// `Item::get(key)`: the entry of a table or inline table.
pub open spec fn item_get(item: TomlView, k: Seq<char>) -> Option<TomlView> {
    match item {
        TomlView::Table(es) => entry_get(es, k),
        TomlView::Inline(es) => entry_get(es, k),
        _ => None,
    }
}

/// The item reached by following keys `path[i..]` from `cur`.
pub open spec fn path_rest(cur: Option<TomlView>, path: Seq<Seq<char>>, i: int) -> Option<TomlView>
    decreases path.len() - i,
{
    match cur {
        None => None,
        Some(item) => if i < 0 || i >= path.len() {
            Some(item)
        } else {
            path_rest(item_get(item, path[i]), path, i + 1)
        },
    }
}

/// The item at a key path from the document's top-level table.
pub open spec fn path_item(top: Seq<(Seq<char>, TomlView)>, path: Seq<Seq<char>>) -> Option<
    TomlView,
> {
    if path.len() == 0 {
        None
    } else {
        path_rest(entry_get(top, path[0]), path, 1)
    }
}

/// `Item::as_table_like`: the entries of a table or inline table.
pub open spec fn as_table_like(item: Option<TomlView>) -> Option<Seq<(Seq<char>, TomlView)>> {
    match item {
        Some(TomlView::Table(es)) => Some(es),
        Some(TomlView::Inline(es)) => Some(es),
        _ => None,
    }
}

/// The keys of a table-like item, in order; none for other items.
pub open spec fn table_keys(item: Option<TomlView>) -> Seq<Seq<char>> {
    match as_table_like(item) {
        Some(es) => es.map_values(|e: (Seq<char>, TomlView)| e.0),
        None => seq![],
    }
}

/// Finds the entry with key `k`.
pub fn entry_get_exec<'a>(es: &'a [(String, TomlItem)], k: &[char]) -> (r: Option<&'a TomlItem>)
    ensures
        match r {
            Some(it) => entry_get(toml_entry_views(es@), k@) == Some(toml_view(*it)),
            None => entry_get(toml_entry_views(es@), k@) is None,
        },
{
    let ghost v = toml_entry_views(es@);
    proof {
        lemma_toml_entry_views(es@);
        assert(v.skip(0) =~= v);
    }
    let mut i: usize = 0;
    while i < es.len()
        invariant
            i <= es@.len(),
            v == toml_entry_views(es@),
            v.len() == es@.len(),
            forall|j: int| 0 <= j < es@.len() ==> #[trigger] v[j] == (es@[j].0@, toml_view(es@[j].1)),
            entry_get(v, k@) == entry_get(v.skip(i as int), k@),
        decreases es.len() - i,
    {
        assert(v.skip(i as int)[0] == v[i as int]);
        assert(v.skip(i as int).drop_first() =~= v.skip(i + 1));
        if eq_chars(chars_of_string(&es[i].0).as_slice(), k) {
            return Some(&es[i].1);
        }
        i = i + 1;
    }
    None
}

/// `Item::get(key)` on the model.
pub fn item_get_exec<'a>(item: &'a TomlItem, k: &[char]) -> (r: Option<&'a TomlItem>)
    ensures
        match r {
            Some(it) => item_get(toml_view(*item), k@) == Some(toml_view(*it)),
            None => item_get(toml_view(*item), k@) is None,
        },
{
    match item {
        TomlItem::Table(es) => entry_get_exec(es.as_slice(), k),
        TomlItem::Inline(es) => entry_get_exec(es.as_slice(), k),
        _ => None,
    }
}

/// The item at a key path from the document's top-level table.
pub fn path_item_exec<'a>(top: &'a [(String, TomlItem)], path: &[String]) -> (r: Option<
    &'a TomlItem,
>)
    ensures
        match r {
            Some(it) => path_item(toml_entry_views(top@), crate::model::strings_view(path@))
                == Some(toml_view(*it)),
            None => path_item(toml_entry_views(top@), crate::model::strings_view(path@)) is None,
        },
{
    let ghost p = crate::model::strings_view(path@);
    if path.len() == 0 {
        return None;
    }
    let first = chars_of_string(&path[0]);
    let mut cur = entry_get_exec(top, first.as_slice());
    let mut i: usize = 1;
    while i < path.len()
        invariant
            1 <= i <= path@.len(),
            p == crate::model::strings_view(path@),
            path_item(toml_entry_views(top@), p) == path_rest(
                match cur {
                    Some(it) => Some(toml_view(*it)),
                    None => None,
                },
                p,
                i as int,
            ),
        decreases path.len() - i,
    {
        match cur {
            None => {
                return None;
            },
            Some(it) => {
                let key = chars_of_string(&path[i]);
                cur = item_get_exec(it, key.as_slice());
            },
        }
        i = i + 1;
    }
    cur
}

/// Converts a parsed table into its model, entry for entry; part of the
/// conversion `toml_parse` applies to its result.
#[verifier::external_body]
fn table_model(table: &toml_edit::Table) -> Vec<(String, TomlItem)> {
    table.iter().map(|(key, item)| (key.to_string(), item_model(item))).collect()
}

/// Converts one item into its model; part of the conversion `toml_parse`
/// applies to its result.
#[verifier::external_body]
fn item_model(item: &toml_edit::Item) -> TomlItem {
    match item {
        toml_edit::Item::Table(table) => TomlItem::Table(table_model(table)),
        toml_edit::Item::Value(value) => value_model(value),
        _ => TomlItem::Other,
    }
}

/// Converts one value into its model; part of the conversion `toml_parse`
/// applies to its result.
#[verifier::external_body]
fn value_model(value: &toml_edit::Value) -> TomlItem {
    match value {
        toml_edit::Value::String(s) => TomlItem::Str(s.value().to_string()),
        toml_edit::Value::Array(a) => TomlItem::Array(a.iter().map(value_model).collect()),
        toml_edit::Value::InlineTable(t) => TomlItem::Inline(
            t.iter().map(|(key, v)| (key.to_string(), value_model(v))).collect(),
        ),
        _ => TomlItem::Other,
    }
}

// ---------------------------------------------------------------------------
// Where values sit in the text
// ---------------------------------------------------------------------------

/// A TOML item as far as rendering needs it: tables and inline tables with
/// their entries in document order, and each value's byte span in the text
/// it was parsed from (none when the parser gives no position).
#[derive(Debug)]
pub enum TomlNode {
    /// A `[table]`.
    Table(Vec<(String, TomlNode)>),
    /// An inline `{ ... }` table value.
    Inline(Option<(usize, usize)>, Vec<(String, TomlNode)>),
    /// An inline array value.
    Array(Option<(usize, usize)>, Vec<TomlNode>),
    /// Any other value: a string, number, boolean or date.
    Scalar(Option<(usize, usize)>),
    /// An array of tables.
    Other,
}

/// The mathematical content of a `TomlNode`.
pub enum NodeView {
    Table(Seq<(Seq<char>, NodeView)>),
    Inline(Option<(int, int)>, Seq<(Seq<char>, NodeView)>),
    Array(Option<(int, int)>, Seq<NodeView>),
    Scalar(Option<(int, int)>),
    Other,
}

pub open spec fn span_view(s: Option<(usize, usize)>) -> Option<(int, int)> {
    match s {
        Some((a, b)) => Some((a as int, b as int)),
        None => None,
    }
}

pub open spec fn node_view(t: TomlNode) -> NodeView
    decreases t, 0nat,
{
    match t {
        TomlNode::Table(v) => NodeView::Table(node_entry_views(v@)),
        TomlNode::Inline(s, v) => NodeView::Inline(span_view(s), node_entry_views(v@)),
        TomlNode::Array(s, v) => NodeView::Array(span_view(s), node_views(v@)),
        TomlNode::Scalar(s) => NodeView::Scalar(span_view(s)),
        TomlNode::Other => NodeView::Other,
    }
}

pub open spec fn node_views(s: Seq<TomlNode>) -> Seq<NodeView>
    decreases s, s.len(),
{
    if s.len() == 0 {
        seq![]
    } else {
        proof {
            assert(decreases_to!(s => s[s.len() - 1]));
        }
        node_views(s.drop_last()).push(node_view(s[s.len() - 1]))
    }
}

pub open spec fn node_entry_views(s: Seq<(String, TomlNode)>) -> Seq<(Seq<char>, NodeView)>
    decreases s, s.len(),
{
    if s.len() == 0 {
        seq![]
    } else {
        proof {
            assert(decreases_to!(s => s[s.len() - 1]));
        }
        node_entry_views(s.drop_last()).push((s[s.len() - 1].0@, node_view(s[s.len() - 1].1)))
    }
}

pub proof fn lemma_node_views(s: Seq<TomlNode>)
    ensures
        node_views(s).len() == s.len(),
        forall|i: int| 0 <= i < s.len() ==> #[trigger] node_views(s)[i] == node_view(s[i]),
    decreases s.len(),
{
    if s.len() > 0 {
        lemma_node_views(s.drop_last());
        assert forall|i: int| 0 <= i < s.len() implies #[trigger] node_views(s)[i] == node_view(
            s[i],
        ) by {
            if i < s.len() - 1 {
                assert(s.drop_last()[i] == s[i]);
            }
        }
    }
}

pub proof fn lemma_node_entry_views(s: Seq<(String, TomlNode)>)
    ensures
        node_entry_views(s).len() == s.len(),
        forall|i: int|
            0 <= i < s.len() ==> #[trigger] node_entry_views(s)[i] == (s[i].0@, node_view(s[i].1)),
    decreases s.len(),
{
    if s.len() > 0 {
        lemma_node_entry_views(s.drop_last());
        assert forall|i: int| 0 <= i < s.len() implies #[trigger] node_entry_views(s)[i] == (
        s[i].0@, node_view(s[i].1)) by {
            if i < s.len() - 1 {
                assert(s.drop_last()[i] == s[i]);
            }
        }
    }
}

/// Converts a parsed table into its layout, entry for entry; part of the
/// conversion `toml_layout_parse` applies to its result.
#[verifier::external_body]
fn layout_table(table: &toml_edit::Table) -> Vec<(String, TomlNode)> {
    table.iter().map(|(key, item)| (key.to_string(), layout_item(item))).collect()
}

/// Converts one item into its layout; part of the conversion
/// `toml_layout_parse` applies to its result.
#[verifier::external_body]
fn layout_item(item: &toml_edit::Item) -> TomlNode {
    match item {
        toml_edit::Item::Table(table) => TomlNode::Table(layout_table(table)),
        toml_edit::Item::Value(value) => layout_value(value),
        _ => TomlNode::Other,
    }
}

/// Converts one value into its layout, with its span (`Value::span`); part
/// of the conversion `toml_layout_parse` applies to its result.
#[verifier::external_body]
fn layout_value(value: &toml_edit::Value) -> TomlNode {
    let span = value.span().map(|range| (range.start, range.end));
    match value {
        toml_edit::Value::Array(a) => TomlNode::Array(span, a.iter().map(layout_value).collect()),
        toml_edit::Value::InlineTable(t) => TomlNode::Inline(
            span,
            t.iter().map(|(key, v)| (key.to_string(), layout_value(v))).collect(),
        ),
        _ => TomlNode::Scalar(span),
    }
}

/// The layout of the document `toml_edit` parses from `content` as an
/// `ImDocument`, which keeps the positions of values (its top-level table's
/// entries), or none when it reports a syntax error.
pub uninterp spec fn toml_layout(content: Seq<char>) -> Option<Seq<(Seq<char>, NodeView)>>;

/// Parses TOML text with `toml_edit` (`ImDocument::parse`), giving the
/// layout of its top-level table. The layout is named, not described: it is
/// whatever `toml_edit` makes of `content`.
#[verifier::external_body]
pub(crate) fn toml_layout_parse(content: &str) -> (r: Result<Vec<(String, TomlNode)>, toml_edit::TomlError>)
    ensures
        r is Err <==> toml_layout(content@) is None,
        r matches Ok(top) ==> toml_layout(content@) == Some(node_entry_views(top@)),
{
    toml_edit::ImDocument::parse(content).map(|document| layout_table(document.as_table()))
}

/// How `toml_edit` writes a string value it was given without a
/// representation of its own: the default representation of
/// `Formatted::new(text)`, quoted and escaped as TOML requires.
pub uninterp spec fn toml_string_text(text: Seq<char>) -> Seq<char>;

/// The default TOML representation of a string (`Formatted::new`, then
/// `Formatted::display_repr`), which is what `toml_edit` prints for a
/// string value created from `text`.
#[verifier::external_body]
pub(crate) fn toml_string_repr(text: &str) -> (r: String)
    ensures
        r@ == toml_string_text(text@),
{
    toml_edit::Formatted::new(text.to_string()).display_repr().into_owned()
}

/// The model of the document `toml_edit` parses from `content` (its
/// top-level table's entries), or none when it reports a syntax error.
pub uninterp spec fn toml_document(content: Seq<char>) -> Option<Seq<(Seq<char>, TomlView)>>;

/// Parses TOML text with `toml_edit` (`DocumentMut::from_str`), giving the
/// model of the document's top-level table. The model is named, not
/// described: it is whatever `toml_edit` makes of `content`.
#[verifier::external_body]
pub(crate) fn toml_parse(content: &str) -> (r: Result<Vec<(String, TomlItem)>, toml_edit::TomlError>)
    ensures
        r is Err <==> toml_document(content@) is None,
        r matches Ok(top) ==> toml_document(content@) == Some(toml_entry_views(top@)),
{
    content.parse::<toml_edit::DocumentMut>().map(|document| table_model(document.as_table()))
}

/// The message of a TOML syntax error (`TomlError`'s `Display`).
#[verifier::external_body]
pub(crate) fn toml_error_text(error: &toml_edit::TomlError) -> String {
    error.to_string()
}

} // verus!
