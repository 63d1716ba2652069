//! Rendering updates into TOML text. Each update's string, written the way
//! `toml_edit` writes a new string value, takes the place of the text of
//! the value at its dependency's location; every other character of the
//! document (whitespace, comments, key order, other values) is kept.

use vstd::prelude::*;
use crate::manifest::{EditModel, char_spans, edits_fit_desc, edits_view, sort_desc, splice_desc};
use crate::model::{Dependency, DependencyLocation, DependencyModel, LocationModel, deps_view, strings_view};
use crate::manifest::updates_view;
use crate::pyproject::{join_dot, join_path, msg_invalid_toml_location, msg_invalid_toml_update};
use crate::text::{chars_of, chars_of_string, eq_chars, push_all};
use crate::toml_doc::{
    NodeView, TomlNode, lemma_node_entry_views, lemma_node_views, node_entry_views, node_view,
    node_views, toml_string_repr, toml_string_text,
};

verus! {

/// The entries of a table or inline table, with their layouts.
pub type Layout = Seq<(Seq<char>, NodeView)>;

/// The node under key `k` (the first entry with that key).
pub open spec fn node_entry(es: Layout, k: Seq<char>) -> Option<NodeView>
    decreases es.len(),
{
    if es.len() == 0 {
        None
    } else if es[0].0 == k {
        Some(es[0].1)
    } else {
        node_entry(es.drop_first(), k)
    }
}

/// The entries of a table or an inline table; none for other nodes.
pub open spec fn node_entries(n: NodeView) -> Option<Layout> {
    match n {
        NodeView::Table(es) => Some(es),
        NodeView::Inline(_, es) => Some(es),
        _ => None,
    }
}

/// What following keys `path[i..]` from `cur` reaches the way
/// `Item::get_mut` does: a missing key gives an empty placeholder
/// (`Some(None)`), through which later keys reach placeholders again, and a
/// key met by a value that is not an inline table, or by an array of
/// tables, reaches nothing (`None`).
pub open spec fn walk(cur: Option<Option<NodeView>>, path: Seq<Seq<char>>, i: int) -> Option<
    Option<NodeView>,
>
    decreases path.len() - i,
{
    if i < 0 || i >= path.len() {
        cur
    } else {
        match cur {
            None => None,
            Some(None) => walk(Some(None), path, i + 1),
            Some(Some(n)) => match node_entries(n) {
                Some(es) => walk(Some(node_entry(es, path[i])), path, i + 1),
                None => None,
            },
        }
    }
}

/// What a key path reaches from the document's top-level table: nothing
/// when the path is empty or its first table is missing.
pub open spec fn path_reach(top: Layout, path: Seq<Seq<char>>) -> Option<Option<NodeView>> {
    if path.len() == 0 {
        None
    } else {
        match node_entry(top, path[0]) {
            None => None,
            Some(n) => walk(Some(Some(n)), path, 1),
        }
    }
}

/// The span of a value node; none for a table or an array of tables.
pub open spec fn value_span(n: NodeView) -> Option<Option<(int, int)>> {
    match n {
        NodeView::Inline(s, _) => Some(s),
        NodeView::Array(s, _) => Some(s),
        NodeView::Scalar(s) => Some(s),
        _ => None,
    }
}

pub open spec fn msg_not_found(what: Seq<char>) -> Seq<char> {
    "could not find "@ + what
}

pub open spec fn msg_array_item() -> Seq<char> {
    "could not find TOML dependency array item"@
}

pub open spec fn msg_not_value(what: Seq<char>) -> Seq<char> {
    what + " is not a TOML value"@
}

pub open spec fn msg_no_position() -> Seq<char> {
    "TOML value has no position in the text"@
}

pub open spec fn msg_overlap() -> Seq<char> {
    "TOML values to update overlap"@
}

pub open spec fn version_for(key: Seq<char>) -> Seq<char> {
    "version for "@ + key
}

/// The edit that writes `rep` over the value `v`: its span, and the string
/// as `toml_edit` writes it.
pub open spec fn value_edit(v: NodeView, rep: Seq<char>, not_value: Seq<char>) -> Result<
    EditModel,
    Seq<char>,
> {
    match value_span(v) {
        None => Err(not_value),
        Some(None) => Err(msg_no_position()),
        Some(Some((a, b))) => Ok((a, b, toml_string_text(rep))),
    }
}

/// The edit that writes `rep` at a TOML location: the array element at its
/// index, the value under its key, or that value's field (of an inline
/// table or a table); the error says what could not be found.
pub open spec fn location_edit(top: Layout, loc: LocationModel, rep: Seq<char>) -> Result<
    EditModel,
    Seq<char>,
> {
    match loc {
        LocationModel::TomlArray { path, index } => match path_reach(top, path) {
            None => Err(msg_not_found(join_dot(path))),
            Some(Some(NodeView::Array(_, vals))) => if 0 <= index < vals.len() {
                value_edit(vals[index], rep, msg_array_item())
            } else {
                Err(msg_array_item())
            },
            Some(_) => Err(msg_array_item()),
        },
        LocationModel::TomlKey { path, key, field } => match path_reach(top, path) {
            Some(Some(n)) => match node_entries(n) {
                None => Err(msg_not_found(join_dot(path))),
                Some(es) => match node_entry(es, key) {
                    None => Err(msg_not_found(join_dot(path) + seq!['.'] + key)),
                    Some(e) => match field {
                        None => value_edit(e, rep, msg_not_value(key)),
                        Some(f) => match node_entries(e) {
                            Some(fs) => match node_entry(fs, f) {
                                Some(v) => value_edit(v, rep, msg_not_value(version_for(key))),
                                None => Err(msg_not_found(version_for(key))),
                            },
                            None => Err(msg_not_found(version_for(key))),
                        },
                    },
                },
            },
            _ => Err(msg_not_found(join_dot(path))),
        },
        _ => Err(msg_invalid_toml_location()),
    }
}

/// The edits the updates ask for, in order, or the error of the first one
/// that names no dependency or a location the document lacks.
pub open spec fn toml_edits(top: Layout, deps: Seq<DependencyModel>, u: Seq<(int, Seq<char>)>) -> Result<
    Seq<EditModel>,
    Seq<char>,
>
    decreases u.len(),
{
    if u.len() == 0 {
        Ok(seq![])
    } else {
        match toml_edits(top, deps, u.drop_last()) {
            Err(e) => Err(e),
            Ok(es) => {
                let (i, rep) = u.last();
                if 0 <= i < deps.len() {
                    match location_edit(top, deps[i].location, rep) {
                        Ok(e) => Ok(es.push(e)),
                        Err(m) => Err(m),
                    }
                } else {
                    Err(msg_invalid_toml_update())
                }
            },
        }
    }
}

/// The rendered text of a TOML document with the layout `top`: the edits,
/// taken from the end of the text, spliced in; an error when they overlap.
pub open spec fn spec_render_toml(
    content: Seq<char>,
    top: Layout,
    deps: Seq<DependencyModel>,
    u: Seq<(int, Seq<char>)>,
) -> Result<Seq<char>, Seq<char>> {
    match crate::pyproject::toml_update_error(deps, u) {
        Some(e) => Err(e),
        None => match toml_edits(top, deps, u) {
            Err(e) => Err(e),
            Ok(edits) => if edits_fit_desc(content, sort_desc(edits)) {
                Ok(splice_desc(content, char_spans(content, sort_desc(edits))))
            } else {
                Err(msg_overlap())
            },
        },
    }
}

// ---------------------------------------------------------------------------
// Executable lookups
// ---------------------------------------------------------------------------

/// The node under key `k`.
fn node_entry_exec<'a>(es: &'a [(String, TomlNode)], k: &[char]) -> (r: Option<&'a TomlNode>)
    ensures
        match r {
            Some(n) => node_entry(node_entry_views(es@), k@) == Some(node_view(*n)),
            None => node_entry(node_entry_views(es@), k@) is None,
        },
{
    let ghost v = node_entry_views(es@);
    proof {
        lemma_node_entry_views(es@);
        assert(v.skip(0) =~= v);
    }
    let mut i: usize = 0;
    while i < es.len()
        invariant
            i <= es@.len(),
            v == node_entry_views(es@),
            v.len() == es@.len(),
            forall|j: int| 0 <= j < es@.len() ==> #[trigger] v[j] == (es@[j].0@, node_view(es@[j].1)),
            node_entry(v, k@) == node_entry(v.skip(i as int), k@),
        decreases es.len() - i,
    {
        assert(v.skip(i as int)[0] == v[i as int]);
        assert(v.skip(i as int).drop_first() =~= v.skip(i + 1));
        if eq_chars(chars_of_string(&es[i].0).as_slice(), k) {
            return Some(&es[i].1);
        }
        i = i + 1;
    }
    None
}

/// The entries of a table or inline table node.
fn node_entries_exec(n: &TomlNode) -> (r: Option<&Vec<(String, TomlNode)>>)
    ensures
        match r {
            Some(es) => node_entries(node_view(*n)) == Some(node_entry_views(es@)),
            None => node_entries(node_view(*n)) is None,
        },
{
    match n {
        TomlNode::Table(es) => Some(es),
        TomlNode::Inline(_, es) => Some(es),
        _ => None,
    }
}

pub open spec fn reach_view(r: Option<Option<&TomlNode>>) -> Option<Option<NodeView>> {
    match r {
        None => None,
        Some(None) => Some(None),
        Some(Some(n)) => Some(Some(node_view(*n))),
    }
}

/// What a key path reaches from the top-level table.
fn path_reach_exec<'a>(top: &'a [(String, TomlNode)], path: &[String]) -> (r: Option<
    Option<&'a TomlNode>,
>)
    ensures
        reach_view(r) == path_reach(node_entry_views(top@), strings_view(path@)),
{
    let ghost p = strings_view(path@);
    if path.len() == 0 {
        return None;
    }
    let first = chars_of_string(&path[0]);
    let start = match node_entry_exec(top, first.as_slice()) {
        None => {
            return None;
        },
        Some(n) => n,
    };
    let mut cur: Option<Option<&'a TomlNode>> = Some(Some(start));
    let mut i: usize = 1;
    while i < path.len()
        invariant
            1 <= i <= path@.len(),
            p == strings_view(path@),
            path_reach(node_entry_views(top@), p) == walk(reach_view(cur), p, i as int),
        decreases path.len() - i,
    {
        match cur {
            None => {
                return None;
            },
            Some(None) => {},
            Some(Some(n)) => match node_entries_exec(n) {
                None => {
                    return None;
                },
                Some(es) => {
                    let key = chars_of_string(&path[i]);
                    cur = Some(node_entry_exec(es.as_slice(), key.as_slice()));
                },
            },
        }
        i = i + 1;
    }
    cur
}

/// The edit writing `rep` over the value node `v`.
fn value_edit_exec(v: &TomlNode, rep: &String, not_value: Vec<char>) -> (r: Result<
    (usize, usize, Vec<char>),
    Vec<char>,
>)
    ensures
        match value_edit(node_view(*v), rep@, not_value@) {
            Ok(e) => r matches Ok(x) && (x.0 as int, x.1 as int, x.2@) == e,
            Err(m) => r matches Err(x) && x@ == m,
        },
{
    let span = match v {
        TomlNode::Inline(s, _) => s,
        TomlNode::Array(s, _) => s,
        TomlNode::Scalar(s) => s,
        _ => {
            return Err(not_value);
        },
    };
    match span {
        None => Err(chars_of("TOML value has no position in the text")),
        Some((a, b)) => {
            let text = toml_string_repr(rep.as_str());
            Ok((*a, *b, chars_of_string(&text)))
        },
    }
}

fn lit(s: &str) -> (v: Vec<char>)
    ensures
        v@ == s@,
{
    chars_of(s)
}

/// The edit writing `rep` at a TOML location.
fn location_edit_exec(top: &[(String, TomlNode)], loc: &DependencyLocation, rep: &String) -> (r:
    Result<(usize, usize, Vec<char>), Vec<char>>)
    ensures
        match location_edit(node_entry_views(top@), loc@, rep@) {
            Ok(e) => r matches Ok(x) && (x.0 as int, x.1 as int, x.2@) == e,
            Err(m) => r matches Err(x) && x@ == m,
        },
{
    match loc {
        DependencyLocation::TomlArray { path, index } => {
            let mut missing = lit("could not find ");
            push_all(&mut missing, join_path(path.as_slice()).as_slice());
            match path_reach_exec(top, path.as_slice()) {
                None => Err(missing),
                Some(Some(TomlNode::Array(_, vals))) => {
                    proof {
                        lemma_node_views(vals@);
                    }
                    if *index < vals.len() {
                        value_edit_exec(&vals[*index], rep, lit("could not find TOML dependency array item"))
                    } else {
                        Err(lit("could not find TOML dependency array item"))
                    }
                },
                Some(_) => Err(lit("could not find TOML dependency array item")),
            }
        },
        DependencyLocation::TomlKey { path, key, field } => {
            let mut missing = lit("could not find ");
            push_all(&mut missing, join_path(path.as_slice()).as_slice());
            let n = match path_reach_exec(top, path.as_slice()) {
                Some(Some(n)) => n,
                _ => {
                    return Err(missing);
                },
            };
            let es = match node_entries_exec(n) {
                None => {
                    return Err(missing);
                },
                Some(es) => es,
            };
            let key_chars = chars_of_string(key);
            let e = match node_entry_exec(es.as_slice(), key_chars.as_slice()) {
                None => {
                    missing.push('.');
                    push_all(&mut missing, key_chars.as_slice());
                    return Err(missing);
                },
                Some(e) => e,
            };
            match field {
                None => {
                    let mut m = key_chars;
                    push_all(&mut m, lit(" is not a TOML value").as_slice());
                    value_edit_exec(e, rep, m)
                },
                Some(f) => {
                    let mut what = lit("version for ");
                    push_all(&mut what, key_chars.as_slice());
                    let mut not_found = lit("could not find ");
                    push_all(&mut not_found, what.as_slice());
                    let fs = match node_entries_exec(e) {
                        None => {
                            return Err(not_found);
                        },
                        Some(fs) => fs,
                    };
                    let fk = chars_of_string(f);
                    match node_entry_exec(fs.as_slice(), fk.as_slice()) {
                        None => Err(not_found),
                        Some(v) => {
                            let mut m = what;
                            push_all(&mut m, lit(" is not a TOML value").as_slice());
                            value_edit_exec(v, rep, m)
                        },
                    }
                },
            }
        },
        _ => Err(lit("invalid TOML dependency location")),
    }
}

/// The edits the updates ask for, in order.
pub fn toml_edits_exec(
    top: &[(String, TomlNode)],
    dependencies: &[Dependency],
    updates: &[(usize, String)],
) -> (r: Result<Vec<(usize, usize, Vec<char>)>, Vec<char>>)
    ensures
        match toml_edits(node_entry_views(top@), deps_view(dependencies@), updates_view(updates@)) {
            Ok(e) => r matches Ok(v) && edits_view(v@) == e,
            Err(m) => r matches Err(x) && x@ == m,
        },
{
    let ghost t = node_entry_views(top@);
    let ghost d = deps_view(dependencies@);
    let ghost u = updates_view(updates@);
    let mut out: Vec<(usize, usize, Vec<char>)> = Vec::new();
    let mut k: usize = 0;
    proof {
        assert(u.take(0) =~= Seq::<(int, Seq<char>)>::empty());
        assert(edits_view(out@) =~= Seq::<EditModel>::empty());
    }
    while k < updates.len()
        invariant
            k <= updates@.len(),
            t == node_entry_views(top@),
            d == deps_view(dependencies@),
            u == updates_view(updates@),
            toml_edits(t, d, u.take(k as int)) == Ok::<Seq<EditModel>, Seq<char>>(edits_view(out@)),
        decreases updates.len() - k,
    {
        proof {
            assert(u.take(k + 1).drop_last() =~= u.take(k as int));
            assert(u.take(k + 1).last() == u[k as int]);
            assert(u[k as int] == (updates@[k as int].0 as int, updates@[k as int].1@));
        }
        let index = updates[k].0;
        if index >= dependencies.len() {
            proof {
                lemma_toml_edits_err(t, d, u, k + 1);
            }
            return Err(lit("invalid TOML dependency update"));
        }
        proof {
            assert(d[index as int] == dependencies@[index as int]@);
        }
        match location_edit_exec(top, &dependencies[index].location, &updates[k].1) {
            Err(m) => {
                proof {
                    lemma_toml_edits_err(t, d, u, k + 1);
                }
                return Err(m);
            },
            Ok(e) => {
                let ghost before = edits_view(out@);
                out.push(e);
                proof {
                    assert(edits_view(out@) =~= before.push((e.0 as int, e.1 as int, e.2@)));
                }
            },
        }
        k = k + 1;
    }
    proof {
        assert(u.take(updates@.len() as int) =~= u);
    }
    Ok(out)
}

/// A failing prefix of the updates makes them all fail with its error.
proof fn lemma_toml_edits_err(t: Layout, d: Seq<DependencyModel>, u: Seq<(int, Seq<char>)>, k: int)
    requires
        0 <= k <= u.len(),
        toml_edits(t, d, u.take(k)) is Err,
    ensures
        toml_edits(t, d, u) == toml_edits(t, d, u.take(k)),
    decreases u.len() - k,
{
    if k < u.len() {
        assert(u.take(k + 1).drop_last() =~= u.take(k));
        lemma_toml_edits_err(t, d, u, k + 1);
    } else {
        assert(u.take(k) =~= u);
    }
}

/// Whether the edits, taken from the end of the text, each fit `text` and
/// do not overlap.
pub fn edits_fit_desc_exec(text: &[char], edits: &[(usize, usize, Vec<char>)]) -> (r: bool)
    ensures
        r == edits_fit_desc(text@, edits_view(edits@)),
{
    let ghost e = edits_view(edits@);
    proof {
        assert(e.len() == edits@.len());
    }
    let mut j: usize = 0;
    while j < edits.len()
        invariant
            j <= edits@.len(),
            e == edits_view(edits@),
            e.len() == edits@.len(),
            forall|i: int|
                #![trigger e[i]]
                0 <= i < j ==> e[i].0 <= e[i].1 && crate::manifest::char_index(text@, e[i].0) is Some
                    && crate::manifest::char_index(text@, e[i].1) is Some && crate::manifest::char_index(
                    text@,
                    e[i].0,
                )->0 <= crate::manifest::char_index(text@, e[i].1)->0,
            forall|a: int, b: int| 0 <= a < b < j ==> #[trigger] e[b].1 <= #[trigger] e[a].0,
        decreases edits.len() - j,
    {
        let s = edits[j].0;
        let t = edits[j].1;
        assert(e[j as int] == (s as int, t as int, edits@[j as int].2@));
        if s > t {
            return false;
        }
        let a = match crate::manifest::char_index_exec(text, s) {
            Some(a) => a,
            None => {
                return false;
            },
        };
        let b = match crate::manifest::char_index_exec(text, t) {
            Some(b) => b,
            None => {
                return false;
            },
        };
        if a > b {
            return false;
        }
        if j > 0 {
            let prev = edits[j - 1].0;
            assert(e[j - 1] == (prev as int, edits@[j - 1].1 as int, edits@[j - 1].2@));
            if t > prev {
                assert(!(e[j as int].1 <= e[j - 1].0));
                return false;
            }
            assert forall|x: int| 0 <= x < j implies #[trigger] e[j as int].1 <= e[x].0 by {
                if x < j - 1 {
                    assert(e[j - 1].1 <= e[x].0);
                }
            }
        }
        j = j + 1;
    }
    true
}

} // verus!
