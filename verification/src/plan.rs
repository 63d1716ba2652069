//! The decisions of a `check` or `update` run: which dependencies are
//! selected, which registry lookups are made, what each report row says,
//! which declarations are rewritten, and the exit code.

use vstd::prelude::*;
use crate::model::{
    Dependency, DependencyModel, Ecosystem, Manifest, ReportRow, ReportStatus, deps_view,
};
use crate::registry::{LookupKey, normalize_chars, spec_normalize};
use crate::text::{chars_of_string, lower, lowercase, eq_chars, string_of, owned};
use crate::version::{
    sopt, spec_requirement_status, spec_replacement_for, requirement_status, replacement_for,
    text_order, text_order_exec, lemma_text_order_antisymmetric, lemma_text_order_zero,
    lemma_text_order_transitive,
};
use crate::laws::{filtering_keeps_spans_in_order, spans_in_order};
use crate::paths::relative_label;

verus! {

// ---------------------------------------------------------------------------
// Package selection
// ---------------------------------------------------------------------------

/// The package names a command is limited to, in ASCII lowercase.
pub struct PackageFilter {
    pub raw: Vec<String>,
}

pub open spec fn filter_names(f: PackageFilter) -> Seq<Seq<char>> {
    crate::model::strings_view(f.raw@)
}

/// A dependency is selected when no names are given, or when its declared
/// name or its normalized registry name is given (ignoring ASCII case).
pub open spec fn selects(names: Seq<Seq<char>>, d: DependencyModel) -> bool {
    names.len() == 0 || names.contains(lower(d.name)) || names.contains(
        lower(spec_normalize(d.ecosystem, d.lookup_name)),
    )
}

impl PackageFilter {
    pub fn new(packages: &[String]) -> (r: PackageFilter)
        ensures
            filter_names(r) == packages@.map_values(|p: String| lower(p@)),
    {
        let mut raw: Vec<String> = Vec::new();
        let mut i: usize = 0;
        while i < packages.len()
            invariant
                i <= packages@.len(),
                crate::model::strings_view(raw@) == packages@.take(i as int).map_values(
                    |p: String| lower(p@),
                ),
            decreases packages.len() - i,
        {
            let l = lowercase(chars_of_string(&packages[i]).as_slice());
            let s = string_of(l.as_slice());
            let ghost old_raw = raw@;
            raw.push(s);
            i = i + 1;
            proof {
                assert(crate::model::strings_view(raw@) =~= crate::model::strings_view(old_raw).push(
                    s@,
                ));
                assert(packages@.take(i as int).map_values(|p: String| lower(p@)) =~= packages@.take(
                    i - 1,
                ).map_values(|p: String| lower(p@)).push(lower(packages@[i - 1]@)));
            }
        }
        assert(packages@.take(packages@.len() as int) =~= packages@);
        PackageFilter { raw }
    }

    fn contains_name(&self, name: &[char]) -> (r: bool)
        ensures
            r == filter_names(*self).contains(name@),
    {
        let mut i: usize = 0;
        while i < self.raw.len()
            invariant
                i <= self.raw@.len(),
                forall|j: int| 0 <= j < i ==> filter_names(*self)[j] != name@,
            decreases self.raw.len() - i,
        {
            if eq_chars(chars_of_string(&self.raw[i]).as_slice(), name) {
                assert(filter_names(*self)[i as int] == name@);
                return true;
            }
            i = i + 1;
        }
        false
    }

    /// Whether the filter selects a dependency.
    pub fn matches(&self, dependency: &Dependency) -> (r: bool)
        ensures
            r == selects(filter_names(*self), dependency@),
    {
        if self.raw.len() == 0 {
            return true;
        }
        let name = lowercase(chars_of_string(&dependency.name).as_slice());
        let lookup = chars_of_string(&dependency.lookup_name);
        let normalized = normalize_chars(dependency.ecosystem, lookup.as_slice());
        let normalized = lowercase(normalized.as_slice());
        self.contains_name(name.as_slice()) || self.contains_name(normalized.as_slice())
    }
}

/// The dependencies a filter keeps, in order.
pub open spec fn selected(names: Seq<Seq<char>>, deps: Seq<DependencyModel>) -> Seq<
    DependencyModel,
>
    decreases deps.len(),
{
    if deps.len() == 0 {
        seq![]
    } else if selects(names, deps.last()) {
        selected(names, deps.drop_last()).push(deps.last())
    } else {
        selected(names, deps.drop_last())
    }
}

/// Keeps the dependencies of a manifest that the filter selects.
pub fn retain_selected(manifest: &mut Manifest, filter: &PackageFilter)
    ensures
        deps_view(final(manifest).dependencies@) == selected(
            filter_names(*filter),
            deps_view(old(manifest).dependencies@),
        ),
        final(manifest).path == old(manifest).path,
        final(manifest).kind == old(manifest).kind,
        final(manifest).original == old(manifest).original,
        spans_in_order(old(manifest).original@, deps_view(old(manifest).dependencies@))
            ==> spans_in_order(final(manifest).original@, deps_view(final(manifest).dependencies@)),
{
    proof {
        if spans_in_order(manifest.original@, deps_view(manifest.dependencies@)) {
            filtering_keeps_spans_in_order(
                manifest.original@,
                filter_names(*filter),
                deps_view(manifest.dependencies@),
            );
        }
    }
    let mut source: Vec<Dependency> = Vec::new();
    std::mem::swap(&mut source, &mut manifest.dependencies);
    let ghost all = deps_view(source@);
    let mut kept_rev: Vec<Dependency> = Vec::new();
    let mut rest: Vec<Dependency> = Vec::new();
    // Reverse once so that popping yields the dependencies in order.
    while source.len() > 0
        invariant
            deps_view(rest@) + deps_view(source@).reverse() == all.reverse(),
        decreases source.len(),
    {
        let ghost before = source@;
        let d = source.pop().unwrap();
        proof {
            assert(before =~= source@.push(d));
            assert(deps_view(before) =~= deps_view(source@).push(d@));
            assert(deps_view(before).reverse() =~= seq![d@] + deps_view(source@).reverse());
            assert(deps_view(rest@.push(d)) =~= deps_view(rest@).push(d@));
        }
        rest.push(d);
    }
    proof {
        assert(deps_view(source@).reverse() =~= Seq::<DependencyModel>::empty());
        assert(all.reverse().reverse() =~= all);
        assert(all.take(0) =~= Seq::<DependencyModel>::empty());
    }
    let ghost n = all.len();
    while rest.len() > 0
        invariant
            rest@.len() <= n,
            n == all.len(),
            deps_view(rest@) =~= all.skip(n - rest@.len()).reverse(),
            deps_view(kept_rev@) == selected(filter_names(*filter), all.take(n - rest@.len())),
        decreases rest.len(),
    {
        let ghost k = n - rest@.len();
        let ghost before = rest@;
        let d = rest.pop().unwrap();
        proof {
            assert(before =~= rest@.push(d));
            assert(deps_view(before) =~= deps_view(rest@).push(d@));
            assert(all.skip(k).reverse().last() == all[k]);
            assert(all.skip(k).reverse().drop_last() =~= all.skip(k + 1).reverse());
            assert(all.take(k + 1).drop_last() =~= all.take(k));
            assert(all.take(k + 1).last() == all[k]);
        }
        if filter.matches(&d) {
            let ghost old_kept = kept_rev@;
            kept_rev.push(d);
            proof {
                assert(deps_view(kept_rev@) =~= deps_view(old_kept).push(d@));
            }
        }
    }
    proof {
        assert(all.take(n as int) =~= all);
    }
    manifest.dependencies = kept_rev;
}

// ---------------------------------------------------------------------------
// Registry lookups
// ---------------------------------------------------------------------------

/// A key as plain values.
pub open spec fn key_view(k: LookupKey) -> (Ecosystem, Seq<char>) {
    (k.0, k.1@)
}

/// The lookup key of a dependency: its ecosystem and normalized name.
pub open spec fn dep_key(d: DependencyModel) -> (Ecosystem, Seq<char>) {
    (d.ecosystem, spec_normalize(d.ecosystem, d.lookup_name))
}

pub open spec fn eco_rank(e: Ecosystem) -> int {
    match e {
        Ecosystem::Python => 0,
        Ecosystem::Node => 1,
    }
}

/// The order of lookup keys: by ecosystem (Python first), then by name.
pub open spec fn key_less(a: (Ecosystem, Seq<char>), b: (Ecosystem, Seq<char>)) -> bool {
    eco_rank(a.0) < eco_rank(b.0) || (a.0 == b.0 && text_order(a.1, b.1) < 0)
}

/// Some dependency that is not skipped needs a lookup under `k`.
pub open spec fn key_needed(ms: Seq<Manifest>, k: (Ecosystem, Seq<char>)) -> bool {
    exists|i: int, j: int|
        0 <= i < ms.len() && 0 <= j < ms[i].dependencies@.len() && (
        #[trigger] ms[i].dependencies@[j]).skip_reason is None && dep_key(
            ms[i].dependencies@[j]@,
        ) == k
}

proof fn lemma_key_order(a: (Ecosystem, Seq<char>), b: (Ecosystem, Seq<char>), c: (
    Ecosystem,
    Seq<char>,
))
    ensures
        !key_less(a, b) && a != b ==> key_less(b, a),
        key_less(a, b) && key_less(b, c) ==> key_less(a, c),
        !key_less(a, a),
{
    lemma_text_order_antisymmetric(a.1, b.1);
    lemma_text_order_zero(a.1, b.1);
    lemma_text_order_zero(a.1, a.1);
    if key_less(a, b) && key_less(b, c) && a.0 == b.0 && b.0 == c.0 {
        lemma_text_order_transitive(a.1, b.1, c.1);
    }
    if !key_less(a, b) && a != b {
        if a.0 == b.0 && text_order(a.1, b.1) == 0 {
            assert(a.1 == b.1);
            assert(a =~= b);
        }
    }
}

fn key_less_exec(a: &LookupKey, b: &LookupKey) -> (r: bool)
    ensures
        r == key_less(key_view(*a), key_view(*b)),
{
    let ra: u8 = match a.0 {
        Ecosystem::Python => 0,
        Ecosystem::Node => 1,
    };
    let rb: u8 = match b.0 {
        Ecosystem::Python => 0,
        Ecosystem::Node => 1,
    };
    if ra < rb {
        return true;
    }
    if ra > rb {
        return false;
    }
    let o = text_order_exec(chars_of_string(&a.1).as_slice(), chars_of_string(&b.1).as_slice());
    o < 0
}

pub open spec fn keys_sorted(ks: Seq<LookupKey>) -> bool {
    forall|a: int, b: int|
        0 <= a < b < ks.len() ==> key_less(key_view(#[trigger] ks[a]), key_view(#[trigger] ks[b]))
}

/// Some key of `ks` is `x`.
pub open spec fn has_key(ks: Seq<LookupKey>, x: (Ecosystem, Seq<char>)) -> bool {
    exists|i: int| 0 <= i < ks.len() && key_view(#[trigger] ks[i]) == x
}

/// Some dependency that is not skipped, among the first `j` of `deps`, has
/// key `x`.
pub open spec fn needed_in(deps: Seq<Dependency>, j: int, x: (Ecosystem, Seq<char>)) -> bool {
    exists|b: int| 0 <= b < j && b < deps.len() && (#[trigger] deps[b]).skip_reason is None
        && dep_key(deps[b]@) == x
}

/// Some dependency that is not skipped, in the first `i` manifests, has
/// key `x`.
pub open spec fn needed_upto(ms: Seq<Manifest>, i: int, x: (Ecosystem, Seq<char>)) -> bool {
    exists|a: int| 0 <= a < i && a < ms.len() && needed_in(
        (#[trigger] ms[a]).dependencies@,
        ms[a].dependencies@.len() as int,
        x,
    )
}

proof fn lemma_key_needed(ms: Seq<Manifest>, x: (Ecosystem, Seq<char>))
    ensures
        needed_upto(ms, ms.len() as int, x) == key_needed(ms, x),
{
    if needed_upto(ms, ms.len() as int, x) {
        let a = choose|a: int| 0 <= a < ms.len() && a < ms.len() && needed_in(
            (#[trigger] ms[a]).dependencies@,
            ms[a].dependencies@.len() as int,
            x,
        );
        let b = choose|b: int|
            0 <= b < ms[a].dependencies@.len() && b < ms[a].dependencies@.len() && (
            #[trigger] ms[a].dependencies@[b]).skip_reason is None && dep_key(
                ms[a].dependencies@[b]@,
            ) == x;
        assert(key_needed(ms, x));
    }
    if key_needed(ms, x) {
        let (a, b) = choose|a: int, b: int|
            0 <= a < ms.len() && 0 <= b < ms[a].dependencies@.len() && (
            #[trigger] ms[a].dependencies@[b]).skip_reason is None && dep_key(
                ms[a].dependencies@[b]@,
            ) == x;
        assert(needed_in(ms[a].dependencies@, ms[a].dependencies@.len() as int, x));
        assert(needed_upto(ms, ms.len() as int, x));
    }
}

/// Adds a key to a strictly sorted list, unless it is there already.
fn insert_key(keys: &mut Vec<LookupKey>, key: LookupKey)
    requires
        keys_sorted(old(keys)@),
    ensures
        keys_sorted(final(keys)@),
        forall|x: (Ecosystem, Seq<char>)|
            #![trigger has_key(final(keys)@, x)]
            #![trigger has_key(old(keys)@, x)]
            has_key(final(keys)@, x) <==> (x == key_view(key) || has_key(old(keys)@, x)),
{
    let mut p: usize = 0;
    while p < keys.len() && key_less_exec(&keys[p], &key)
        invariant
            p <= keys@.len(),
            forall|q: int| 0 <= q < p ==> key_less(key_view(#[trigger] keys@[q]), key_view(key)),
        decreases keys.len() - p,
    {
        p = p + 1;
    }
    if p < keys.len() && !key_less_exec(&key, &keys[p]) {
        proof {
            lemma_key_order(key_view(keys@[p as int]), key_view(key), key_view(key));
            assert forall|x: (Ecosystem, Seq<char>)|
                #![trigger has_key(keys@, x)]
                has_key(keys@, x) <==> (x == key_view(key) || has_key(keys@, x)) by {
                if x == key_view(key) {
                    assert(key_view(keys@[p as int]) == x);
                }
            }
        }
        return ;
    }
    let ghost old_keys = keys@;
    proof {
        if p < old_keys.len() {
            assert forall|s: int| p <= s < old_keys.len() implies key_less(
                key_view(key),
                key_view(#[trigger] old_keys[s]),
            ) by {
                if s > p {
                    lemma_key_order(
                        key_view(key),
                        key_view(old_keys[p as int]),
                        key_view(old_keys[s]),
                    );
                }
            }
        }
    }
    keys.insert(p, key);
    proof {
        assert forall|a: int, b: int| 0 <= a < b < keys@.len() implies key_less(
            key_view(#[trigger] keys@[a]),
            key_view(#[trigger] keys@[b]),
        ) by {
            if b < p {
                assert(keys@[a] == old_keys[a]);
                assert(keys@[b] == old_keys[b]);
            } else if a < p && b == p {
            } else if a < p && b > p {
                assert(keys@[b] == old_keys[b - 1]);
            } else if a == p {
                assert(keys@[b] == old_keys[b - 1]);
            } else {
                assert(keys@[a] == old_keys[a - 1]);
                assert(keys@[b] == old_keys[b - 1]);
            }
        }
        assert forall|x: (Ecosystem, Seq<char>)|
            #![trigger has_key(keys@, x)]
            has_key(keys@, x) <==> (x == key_view(key) || has_key(old_keys, x)) by {
            if has_key(keys@, x) {
                let i = choose|i: int| 0 <= i < keys@.len() && key_view(#[trigger] keys@[i]) == x;
                if i > p {
                    assert(keys@[i] == old_keys[i - 1]);
                } else if i < p {
                    assert(keys@[i] == old_keys[i]);
                }
            }
            if has_key(old_keys, x) {
                let i = choose|i: int| 0 <= i < old_keys.len() && key_view(#[trigger] old_keys[i]) == x;
                if i >= p {
                    assert(keys@[i + 1] == old_keys[i]);
                } else {
                    assert(keys@[i] == old_keys[i]);
                }
            }
            if x == key_view(key) {
                assert(keys@[p as int] == key);
            }
        }
    }
}

/// One lookup per normalized name and ecosystem, for the dependencies that
/// are not skipped, in a deterministic order (by ecosystem, then name).
pub fn lookup_keys(manifests: &[Manifest]) -> (r: Vec<LookupKey>)
    ensures
        keys_sorted(r@),
        forall|x: (Ecosystem, Seq<char>)|
            #![trigger has_key(r@, x)]
            #![trigger key_needed(manifests@, x)]
            has_key(r@, x) <==> key_needed(manifests@, x),
{
    let mut keys: Vec<LookupKey> = Vec::new();
    let mut i: usize = 0;
    while i < manifests.len()
        invariant
            i <= manifests@.len(),
            keys_sorted(keys@),
            forall|x: (Ecosystem, Seq<char>)|
                #![trigger has_key(keys@, x)]
                #![trigger needed_upto(manifests@, i as int, x)]
                has_key(keys@, x) <==> needed_upto(manifests@, i as int, x),
        decreases manifests.len() - i,
    {
        let deps = &manifests[i].dependencies;
        let mut j: usize = 0;
        while j < deps.len()
            invariant
                i < manifests@.len(),
                deps@ == manifests@[i as int].dependencies@,
                j <= deps@.len(),
                keys_sorted(keys@),
                forall|x: (Ecosystem, Seq<char>)|
                    #![trigger has_key(keys@, x)]
                    has_key(keys@, x) <==> (needed_upto(manifests@, i as int, x) || needed_in(
                        deps@,
                        j as int,
                        x,
                    )),
            decreases deps.len() - j,
        {
            let d = &deps[j];
            let ghost old_keys = keys@;
            if d.skip_reason.is_none() {
                let name = normalize_chars(d.ecosystem, chars_of_string(&d.lookup_name).as_slice());
                let key: LookupKey = (d.ecosystem, string_of(name.as_slice()));
                insert_key(&mut keys, key);
                proof {
                    assert(key_view(key) == dep_key(deps@[j as int]@));
                }
            }
            proof {
                assert forall|x: (Ecosystem, Seq<char>)|
                    has_key(keys@, x) <==> (needed_upto(manifests@, i as int, x) || needed_in(
                        deps@,
                        j + 1,
                        x,
                    )) by {
                    assert(has_key(old_keys, x) <==> (needed_upto(manifests@, i as int, x)
                        || needed_in(deps@, j as int, x)));
                    if needed_in(deps@, j + 1, x) {
                        let b = choose|b: int|
                            0 <= b < j + 1 && b < deps@.len() && (#[trigger] deps@[b]).skip_reason
                                is None && dep_key(deps@[b]@) == x;
                        if b < j {
                            assert(needed_in(deps@, j as int, x));
                        }
                    }
                    if needed_in(deps@, j as int, x) {
                        let b = choose|b: int|
                            0 <= b < j && b < deps@.len() && (#[trigger] deps@[b]).skip_reason
                                is None && dep_key(deps@[b]@) == x;
                        assert(needed_in(deps@, j + 1, x));
                    }
                    if x == dep_key(deps@[j as int]@) && deps@[j as int].skip_reason is None {
                        assert(needed_in(deps@, j + 1, x));
                    }
                }
            }
            j = j + 1;
        }
        proof {
            assert forall|x: (Ecosystem, Seq<char>)|
                has_key(keys@, x) <==> needed_upto(manifests@, i + 1, x) by {
                if needed_upto(manifests@, i + 1, x) {
                    let a = choose|a: int| 0 <= a < i + 1 && a < manifests@.len() && needed_in(
                        (#[trigger] manifests@[a]).dependencies@,
                        manifests@[a].dependencies@.len() as int,
                        x,
                    );
                    if a < i {
                        assert(needed_upto(manifests@, i as int, x));
                    }
                }
                if needed_upto(manifests@, i as int, x) {
                    let a = choose|a: int| 0 <= a < i && a < manifests@.len() && needed_in(
                        (#[trigger] manifests@[a]).dependencies@,
                        manifests@[a].dependencies@.len() as int,
                        x,
                    );
                    assert(needed_upto(manifests@, i + 1, x));
                }
                if needed_in(deps@, deps@.len() as int, x) {
                    assert(needed_in(
                        manifests@[i as int].dependencies@,
                        manifests@[i as int].dependencies@.len() as int,
                        x,
                    ));
                    assert(needed_upto(manifests@, i + 1, x));
                }
            }
        }
        i = i + 1;
    }
    proof {
        assert forall|x: (Ecosystem, Seq<char>)| has_key(keys@, x) <==> key_needed(manifests@, x) by {
            lemma_key_needed(manifests@, x);
        }
    }
    keys
}

// ---------------------------------------------------------------------------
// Report rows
// ---------------------------------------------------------------------------

/// The registry answer recorded for key `x`, searching from entry `i`.
pub open spec fn lookup_from(
    entries: Seq<(LookupKey, Result<String, String>)>,
    i: int,
    x: (Ecosystem, Seq<char>),
) -> Option<Result<Seq<char>, Seq<char>>>
    decreases entries.len() - i,
{
    if i < 0 || i >= entries.len() {
        None
    } else if key_view(entries[i].0) == x {
        Some(crate::version::sres(entries[i].1))
    } else {
        lookup_from(entries, i + 1, x)
    }
}

/// The registry answer recorded for key `x` (the first entry with that key).
pub open spec fn lookup_in(entries: Seq<(LookupKey, Result<String, String>)>, x: (
    Ecosystem,
    Seq<char>,
)) -> Option<Result<Seq<char>, Seq<char>>> {
    lookup_from(entries, 0, x)
}

fn find_lookup<'a>(entries: &'a [(LookupKey, Result<String, String>)], key: &LookupKey) -> (r:
    Option<&'a Result<String, String>>)
    ensures
        match r {
            Some(res) => lookup_in(entries@, key_view(*key)) == Some(crate::version::sres(*res)),
            None => lookup_in(entries@, key_view(*key)) is None,
        },
{
    let name = chars_of_string(&key.1);
    let mut i: usize = 0;
    while i < entries.len()
        invariant
            i <= entries@.len(),
            name@ == key.1@,
            lookup_in(entries@, key_view(*key)) == lookup_from(entries@, i as int, key_view(*key)),
        decreases entries.len() - i,
    {
        let e = &entries[i];
        if e.0.0 == key.0 && eq_chars(chars_of_string(&e.0.1).as_slice(), name.as_slice()) {
            return Some(&e.1);
        }
        i = i + 1;
    }
    None
}

pub open spec fn msg_not_executed() -> Seq<char> {
    "registry lookup was not executed"@
}

/// The replacement a report row carries: the rewritten declaration, or none
/// when there is none or it cannot be made.
pub open spec fn ok_flatten(r: Result<Option<Seq<char>>, Seq<char>>) -> Option<Seq<char>> {
    match r {
        Ok(o) => o,
        Err(_) => None,
    }
}

/// What the report row of dependency `d` (dependency `di` of manifest `mi`)
/// says: skipped dependencies are reported without a lookup; otherwise the
/// registry answer decides the status, message and replacement, and a
/// failed or missing lookup is an error.
pub open spec fn row_for(
    row: ReportRow,
    d: Dependency,
    mi: int,
    di: int,
    lookups: Seq<(LookupKey, Result<String, String>)>,
) -> bool {
    &&& row.ecosystem == d.ecosystem
    &&& row.group@ == d.group@
    &&& row.package@ == d.name@
    &&& row.current@ == d.requirement@
    &&& row.manifest_index == mi
    &&& row.dependency_index == di
    &&& match d.skip_reason {
        Some(reason) => row.latest is None && row.status == ReportStatus::Skipped && sopt(
            row.message,
        ) == Some(reason@) && row.replacement is None,
        None => match lookup_in(lookups, dep_key(d@)) {
            Some(Ok(latest)) => sopt(row.latest) == Some(latest) && (row.status, sopt(row.message))
                == spec_requirement_status(d, latest) && sopt(row.replacement) == ok_flatten(
                spec_replacement_for(d, latest),
            ),
            Some(Err(e)) => row.latest is None && row.status == ReportStatus::Error && sopt(
                row.message,
            ) == Some(e) && row.replacement is None,
            None => row.latest is None && row.status == ReportStatus::Error && sopt(row.message)
                == Some(msg_not_executed()) && row.replacement is None,
        },
    }
}

/// The row of one dependency, with the given manifest label.
pub fn row_for_dependency(
    dependency: &Dependency,
    manifest_index: usize,
    dependency_index: usize,
    manifest: String,
    lookups: &[(LookupKey, Result<String, String>)],
) -> (row: ReportRow)
    ensures
        row_for(row, *dependency, manifest_index as int, dependency_index as int, lookups@),
        row.manifest == manifest,
{
    let (latest, status, message, replacement) = match &dependency.skip_reason {
        Some(reason) => (None, ReportStatus::Skipped, Some(reason.clone()), None),
        None => {
            let name = normalize_chars(
                dependency.ecosystem,
                chars_of_string(&dependency.lookup_name).as_slice(),
            );
            let key: LookupKey = (dependency.ecosystem, string_of(name.as_slice()));
            match find_lookup(lookups, &key) {
                Some(Ok(latest)) => {
                    let (status, message) = requirement_status(dependency, latest.as_str());
                    let replacement = match replacement_for(dependency, latest.as_str()) {
                        Ok(r) => r,
                        Err(_) => None,
                    };
                    (Some(latest.clone()), status, message, replacement)
                },
                Some(Err(error)) => (None, ReportStatus::Error, Some(error.clone()), None),
                None => (
                    None,
                    ReportStatus::Error,
                    Some(owned("registry lookup was not executed")),
                    None,
                ),
            }
        },
    };
    ReportRow {
        ecosystem: dependency.ecosystem,
        manifest,
        group: dependency.group.clone(),
        package: dependency.name.clone(),
        current: dependency.requirement.clone(),
        latest,
        status,
        message,
        manifest_index,
        dependency_index,
        replacement,
    }
}

/// The (manifest, dependency) index pairs of all dependencies, in order.
pub open spec fn flat_positions(ms: Seq<Manifest>) -> Seq<(int, int)>
    decreases ms.len(),
{
    if ms.len() == 0 {
        seq![]
    } else {
        flat_positions(ms.drop_last()) + Seq::new(
            ms.last().dependencies@.len(),
            |j: int| ((ms.len() - 1) as int, j),
        )
    }
}

pub proof fn lemma_flat_positions_bounds(ms: Seq<Manifest>)
    ensures
        forall|k: int|
            0 <= k < flat_positions(ms).len() ==> 0 <= (#[trigger] flat_positions(ms)[k]).0
                < ms.len() && 0 <= flat_positions(ms)[k].1 < ms[flat_positions(ms)[k].0].dependencies@.len(),
    decreases ms.len(),
{
    if ms.len() > 0 {
        lemma_flat_positions_bounds(ms.drop_last());
        let prev = flat_positions(ms.drop_last());
        assert forall|k: int| 0 <= k < flat_positions(ms).len() implies 0 <= (
        #[trigger] flat_positions(ms)[k]).0 < ms.len() && 0 <= flat_positions(ms)[k].1
            < ms[flat_positions(ms)[k].0].dependencies@.len() by {
            if k < prev.len() {
                assert(flat_positions(ms)[k] == prev[k]);
                assert(ms.drop_last()[prev[k].0] == ms[prev[k].0]);
            }
        }
    }
}

/// The report rows of all dependencies, in manifest and declaration order.
/// Each row's manifest label is the manifest's path shown relative to `root`
/// (see `relative_label` for what holds of it on every platform).
pub fn build_rows(
    manifests: &[Manifest],
    lookups: &[(LookupKey, Result<String, String>)],
    root: &str,
) -> (rows: Vec<ReportRow>)
    ensures
        rows@.len() == flat_positions(manifests@).len(),
        forall|k: int|
            #![trigger rows@[k]]
            0 <= k < rows@.len() ==> row_for(
                rows@[k],
                manifests@[flat_positions(manifests@)[k].0].dependencies@[flat_positions(
                    manifests@,
                )[k].1],
                flat_positions(manifests@)[k].0,
                flat_positions(manifests@)[k].1,
                lookups@,
            ) && relative_label(
                root@,
                manifests@[flat_positions(manifests@)[k].0].path@,
                rows@[k].manifest@,
            ),
{
    let mut rows: Vec<ReportRow> = Vec::new();
    let mut i: usize = 0;
    while i < manifests.len()
        invariant
            i <= manifests@.len(),
            rows@.len() == flat_positions(manifests@.take(i as int)).len(),
            forall|k: int|
                #![trigger rows@[k]]
                0 <= k < rows@.len() ==> row_for(
                    rows@[k],
                    manifests@[flat_positions(manifests@.take(i as int))[k].0].dependencies@[flat_positions(
                        manifests@.take(i as int),
                    )[k].1],
                    flat_positions(manifests@.take(i as int))[k].0,
                    flat_positions(manifests@.take(i as int))[k].1,
                    lookups@,
                ) && relative_label(
                    root@,
                    manifests@[flat_positions(manifests@.take(i as int))[k].0].path@,
                    rows@[k].manifest@,
                ),
        decreases manifests.len() - i,
    {
        let ghost before = flat_positions(manifests@.take(i as int));
        let ghost next = flat_positions(manifests@.take(i + 1));
        proof {
            assert(manifests@.take(i + 1).drop_last() =~= manifests@.take(i as int));
            assert(next == before + Seq::new(
                manifests@[i as int].dependencies@.len(),
                |j: int| (i as int, j),
            ));
            lemma_flat_positions_bounds(manifests@.take(i as int));
        }
        let manifest = &manifests[i];
        let mut j: usize = 0;
        while j < manifest.dependencies.len()
            invariant
                i < manifests@.len(),
                manifest == manifests@[i as int],
                j <= manifest.dependencies@.len(),
                rows@.len() == before.len() + j,
                next == before + Seq::new(
                    manifests@[i as int].dependencies@.len(),
                    |j: int| (i as int, j),
                ),
                forall|k: int|
                    0 <= k < before.len() ==> 0 <= (#[trigger] before[k]).0 < i && before[k].0
                        < manifests@.take(i as int).len() && 0 <= before[k].1
                        < manifests@.take(i as int)[before[k].0].dependencies@.len(),
                forall|k: int|
                    #![trigger rows@[k]]
                    0 <= k < rows@.len() ==> row_for(
                        rows@[k],
                        manifests@[next[k].0].dependencies@[next[k].1],
                        next[k].0,
                        next[k].1,
                        lookups@,
                    ) && relative_label(root@, manifests@[next[k].0].path@, rows@[k].manifest@),
            decreases manifest.dependencies.len() - j,
        {
            let label = crate::paths::display_path(root, manifest.path.as_str());
            let row = row_for_dependency(&manifest.dependencies[j], i, j, label, lookups);
            rows.push(row);
            j = j + 1;
        }
        i = i + 1;
    }
    proof {
        assert(manifests@.take(manifests@.len() as int) =~= manifests@);
    }
    rows
}

// ---------------------------------------------------------------------------
// Updates and exit codes
// ---------------------------------------------------------------------------

/// The rewrites a report asks for: every outdated row that has a
/// replacement, as (manifest index, dependency index, replacement).
pub open spec fn update_entries(rows: Seq<ReportRow>) -> Seq<(int, int, Seq<char>)>
    decreases rows.len(),
{
    if rows.len() == 0 {
        seq![]
    } else {
        let prev = update_entries(rows.drop_last());
        let row = rows.last();
        match row.replacement {
            Some(r) => if row.status == ReportStatus::Outdated {
                prev.push((row.manifest_index as int, row.dependency_index as int, r@))
            } else {
                prev
            },
            None => prev,
        }
    }
}

pub open spec fn update_view(u: Seq<(usize, usize, String)>) -> Seq<(int, int, Seq<char>)> {
    u.map_values(|e: (usize, usize, String)| (e.0 as int, e.1 as int, e.2@))
}

/// Collects the replacements of the outdated rows, in row order.
pub fn collect_updates(rows: &[ReportRow]) -> (r: Vec<(usize, usize, String)>)
    ensures
        update_view(r@) == update_entries(rows@),
{
    let mut updates: Vec<(usize, usize, String)> = Vec::new();
    let mut i: usize = 0;
    while i < rows.len()
        invariant
            i <= rows@.len(),
            update_view(updates@) == update_entries(rows@.take(i as int)),
        decreases rows.len() - i,
    {
        let row = &rows[i];
        proof {
            assert(rows@.take(i + 1).drop_last() =~= rows@.take(i as int));
            assert(rows@.take(i + 1).last() == rows@[i as int]);
        }
        if row.status == ReportStatus::Outdated {
            if let Some(replacement) = &row.replacement {
                let ghost old_updates = updates@;
                let e = (row.manifest_index, row.dependency_index, replacement.clone());
                updates.push(e);
                proof {
                    assert(update_view(updates@) =~= update_view(old_updates).push(
                        (e.0 as int, e.1 as int, e.2@),
                    ));
                }
            }
        }
        i = i + 1;
    }
    assert(rows@.take(rows@.len() as int) =~= rows@);
    updates
}

/// The updates of one manifest: (dependency index, replacement).
pub open spec fn updates_of(u: Seq<(int, int, Seq<char>)>, manifest_index: int) -> Seq<
    (int, Seq<char>),
>
    decreases u.len(),
{
    if u.len() == 0 {
        seq![]
    } else if u.last().0 == manifest_index {
        updates_of(u.drop_last(), manifest_index).push((u.last().1, u.last().2))
    } else {
        updates_of(u.drop_last(), manifest_index)
    }
}

/// Selects the updates that belong to one manifest.
pub fn updates_for_manifest(updates: &[(usize, usize, String)], manifest_index: usize) -> (r: Vec<
    (usize, String),
>)
    ensures
        crate::manifest::updates_view(r@) == updates_of(
            update_view(updates@),
            manifest_index as int,
        ),
{
    let mut out: Vec<(usize, String)> = Vec::new();
    let mut i: usize = 0;
    while i < updates.len()
        invariant
            i <= updates@.len(),
            crate::manifest::updates_view(out@) == updates_of(
                update_view(updates@.take(i as int)),
                manifest_index as int,
            ),
        decreases updates.len() - i,
    {
        proof {
            assert(update_view(updates@.take(i + 1)).drop_last() =~= update_view(
                updates@.take(i as int),
            ));
        }
        if updates[i].0 == manifest_index {
            let ghost old_out = out@;
            let e = (updates[i].1, updates[i].2.clone());
            out.push(e);
            proof {
                assert(crate::manifest::updates_view(out@) =~= crate::manifest::updates_view(
                    old_out,
                ).push((e.0 as int, e.1@)));
            }
        }
        i = i + 1;
    }
    assert(updates@.take(updates@.len() as int) =~= updates@);
    out
}

/// The number of declarations an update run rewrites.
pub fn updates_len(updates: &[(usize, usize, String)]) -> (r: usize)
    ensures
        r == updates@.len(),
{
    updates.len()
}

/// The exit code of `check`: 2 when a lookup failed, 1 when asked to fail
/// on outdated dependencies and some are, else 0.
pub fn check_exit_code(summary: &crate::output::Summary, fail_on_outdated: bool) -> (r: u8)
    ensures
        r == (if summary.errors > 0 {
            2u8
        } else if fail_on_outdated && summary.outdated > 0 {
            1u8
        } else {
            0u8
        }),
{
    if summary.errors > 0 {
        2
    } else if fail_on_outdated && summary.outdated > 0 {
        1
    } else {
        0
    }
}

pub open spec fn msg_registry_errors() -> Seq<char> {
    "registry errors must be resolved before updating manifests"@
}

/// `update` refuses to write anything while some registry lookup failed.
pub fn update_guard(summary: &crate::output::Summary) -> (r: Result<(), String>)
    ensures
        r is Ok <==> summary.errors == 0,
        r matches Err(m) ==> m@ == msg_registry_errors(),
{
    if summary.errors > 0 {
        Err(owned("registry errors must be resolved before updating manifests"))
    } else {
        Ok(())
    }
}

pub open spec fn msg_no_manifests() -> Seq<char> {
    "no supported dependency manifests found"@
}

pub open spec fn msg_no_dependencies() -> Seq<char> {
    "no matching dependencies found"@
}

/// A run needs at least one discovered manifest.
pub fn require_manifests(count: usize) -> (r: Result<(), String>)
    ensures
        r is Ok <==> count > 0,
        r matches Err(m) ==> m@ == msg_no_manifests(),
{
    if count == 0 {
        Err(owned("no supported dependency manifests found"))
    } else {
        Ok(())
    }
}

/// Whether some manifest still declares a dependency after filtering.
pub open spec fn has_dependencies(ms: Seq<Manifest>) -> bool {
    exists|i: int| 0 <= i < ms.len() && #[trigger] ms[i].dependencies@.len() > 0
}

/// A run needs at least one selected dependency.
pub fn require_dependencies(manifests: &[Manifest]) -> (r: Result<(), String>)
    ensures
        r is Ok <==> has_dependencies(manifests@),
        r matches Err(m) ==> m@ == msg_no_dependencies(),
{
    let mut i: usize = 0;
    while i < manifests.len()
        invariant
            i <= manifests@.len(),
            forall|j: int| 0 <= j < i ==> #[trigger] manifests@[j].dependencies@.len() == 0,
        decreases manifests.len() - i,
    {
        if manifests[i].dependencies.len() > 0 {
            return Ok(());
        }
        i = i + 1;
    }
    Err(owned("no matching dependencies found"))
}

/// What `update` does once its guard passed.
#[derive(Clone, Copy, Debug, PartialEq, Eq, Structural)]
pub enum UpdateStep {
    /// No declaration is outdated: nothing is written.
    NothingToUpdate,
    /// A dry run only reports how many declarations would change.
    DryRun,
    /// The manifests are rewritten.
    Write,
}

/// The step `update` takes for `update_count` collected updates.
pub fn update_step(update_count: usize, dry_run: bool) -> (r: UpdateStep)
    ensures
        r == (if update_count == 0 {
            UpdateStep::NothingToUpdate
        } else if dry_run {
            UpdateStep::DryRun
        } else {
            UpdateStep::Write
        }),
{
    if update_count == 0 {
        UpdateStep::NothingToUpdate
    } else if dry_run {
        UpdateStep::DryRun
    } else {
        UpdateStep::Write
    }
}

} // verus!
