//! What the library makes of the answers of crandb (crandb.r-pkg.org): the
//! versions a package has had, in ascending order, and the dependencies of
//! one version.
use vstd::prelude::*;
use vstd::multiset::Multiset;
use crate::index::{
    base_package_list, base_packages, is_listed, lemma_shipped_packages_are_base, ships_with_r,
    DepView,
};
use crate::text::{chars_eq, chars_of, views};
use crate::version::{
    lemma_version_order_antisymmetric, lemma_version_order_reflexive, lemma_version_order_transitive, parse_req, parse_version,
    version_order, Dep, RVersion, VersionReq,
};

verus! {

// ---------------------------------------------------------------------------
// Versions
// ---------------------------------------------------------------------------

/// The versions that the texts write, in order, leaving out texts that are
/// not versions.
pub open spec fn parsed_versions(keys: Seq<Seq<char>>) -> Seq<Seq<u32>>
    decreases keys.len(),
{
    if keys.len() == 0 {
        seq![]
    } else {
        let rest = parsed_versions(keys.drop_last());
        match parse_version(keys.last()) {
            Some(v) => rest.push(v),
            None => rest,
        }
    }
}

/// `x` placed before the first version that comes after it, so that equal
/// versions keep their order.
pub open spec fn insert_version(x: Seq<u32>, s: Seq<Seq<u32>>) -> Seq<Seq<u32>>
    decreases s.len(),
{
    if s.len() == 0 {
        seq![x]
    } else if version_order(x, s[0]) < 0 {
        seq![x] + s
    } else {
        seq![s[0]] + insert_version(x, s.drop_first())
    }
}

/// The versions in ascending order; equal versions keep their order.
pub open spec fn sort_versions(s: Seq<Seq<u32>>) -> Seq<Seq<u32>>
    decreases s.len(),
{
    if s.len() == 0 {
        seq![]
    } else {
        insert_version(s.last(), sort_versions(s.drop_last()))
    }
}

/// Each version comes before or equals the later ones.
pub open spec fn versions_ascend(s: Seq<Seq<u32>>) -> bool {
    forall|i: int, j: int| 0 <= i < j < s.len() ==> version_order(s[i], s[j]) <= 0
}

/// The views of a list of versions.
pub open spec fn version_views(v: Seq<RVersion>) -> Seq<Seq<u32>> {
    v.map_values(|x: RVersion| x@)
}

proof fn lemma_prepend_multiset(x: Seq<u32>, s: Seq<Seq<u32>>)
    ensures
        (seq![x] + s).to_multiset() == s.to_multiset().insert(x),
{
    broadcast use vstd::seq_lib::group_to_multiset_ensures;

    vstd::seq_lib::lemma_multiset_commutative(seq![x], s);
    assert(seq![x] =~= Seq::<Seq<u32>>::empty().push(x));
    assert(seq![x].to_multiset() =~= Multiset::<Seq<u32>>::empty().insert(x));
}

/// Inserting a version keeps a list ascending and adds exactly that version.
proof fn lemma_insert_version(x: Seq<u32>, s: Seq<Seq<u32>>)
    requires
        versions_ascend(s),
    ensures
        versions_ascend(insert_version(x, s)),
        insert_version(x, s).to_multiset() == s.to_multiset().insert(x),
    decreases s.len(),
{
    broadcast use vstd::seq_lib::group_to_multiset_ensures;

    let r = insert_version(x, s);
    if s.len() == 0 {
        assert(r =~= seq![x]);
        lemma_prepend_multiset(x, s);
        assert(seq![x] + s =~= seq![x]);
    } else if version_order(x, s[0]) < 0 {
        assert(r =~= seq![x] + s);
        assert forall|i: int, j: int| 0 <= i < j < r.len() implies version_order(r[i], r[j])
            <= 0 by {
            if i == 0 {
                assert(r[j] == s[j - 1]);
                if j - 1 > 0 {
                    lemma_version_order_transitive(x, s[0], s[j - 1]);
                }
            } else {
                assert(r[i] == s[i - 1]);
                assert(r[j] == s[j - 1]);
            }
        }
        lemma_prepend_multiset(x, s);
    } else {
        let t = s.drop_first();
        assert(versions_ascend(t)) by {
            assert forall|i: int, j: int| 0 <= i < j < t.len() implies version_order(t[i], t[j])
                <= 0 by {
                assert(t[i] == s[i + 1]);
                assert(t[j] == s[j + 1]);
            }
        }
        lemma_insert_version(x, t);
        let it = insert_version(x, t);
        assert(r =~= seq![s[0]] + it);
        lemma_version_order_antisymmetric(x, s[0]);
        assert forall|i: int, j: int| 0 <= i < j < r.len() implies version_order(r[i], r[j])
            <= 0 by {
            if i == 0 {
                assert(r[j] == it[j - 1]);
                assert(it.contains(it[j - 1]));
                assert(it.to_multiset().count(it[j - 1]) > 0);
                assert(t.to_multiset().insert(x).count(it[j - 1]) > 0);
                if it[j - 1] != x {
                    assert(t.to_multiset().count(it[j - 1]) > 0);
                    assert(t.contains(it[j - 1]));
                    let k = choose|k: int| 0 <= k < t.len() && t[k] == it[j - 1];
                    assert(s[k + 1] == t[k]);
                }
            } else {
                assert(r[i] == it[i - 1]);
                assert(r[j] == it[j - 1]);
            }
        }
        lemma_prepend_multiset(s[0], it);
        lemma_prepend_multiset(s[0], t);
        assert(s =~= seq![s[0]] + t);
        assert(r.to_multiset() =~= s.to_multiset().insert(x));
    }
}

/// Law: sorting gives the same versions, each as often, in ascending order.
pub proof fn lemma_sort_versions(s: Seq<Seq<u32>>)
    ensures
        versions_ascend(sort_versions(s)),
        sort_versions(s).to_multiset() == s.to_multiset(),
    decreases s.len(),
{
    broadcast use vstd::seq_lib::group_to_multiset_ensures;

    if s.len() > 0 {
        lemma_sort_versions(s.drop_last());
        lemma_insert_version(s.last(), sort_versions(s.drop_last()));
        assert(s =~= s.drop_last().push(s.last()));
    }
}

/// Where `insert_version` puts `x`: before the first version that comes
/// after it.
proof fn lemma_insert_version_at(x: Seq<u32>, s: Seq<Seq<u32>>, p: int)
    requires
        0 <= p <= s.len(),
        forall|k: int| 0 <= k < p ==> version_order(x, #[trigger] s[k]) >= 0,
        p < s.len() ==> version_order(x, s[p]) < 0,
    ensures
        insert_version(x, s) == s.take(p) + seq![x] + s.skip(p),
    decreases s.len(),
{
    if s.len() == 0 {
        assert(s.take(p) + seq![x] + s.skip(p) =~= seq![x]);
    } else if p == 0 {
        assert(s.take(p) + seq![x] + s.skip(p) =~= seq![x] + s);
    } else {
        let t = s.drop_first();
        assert forall|k: int| 0 <= k < p - 1 implies version_order(x, #[trigger] t[k]) >= 0 by {
            assert(t[k] == s[k + 1]);
        }
        if p - 1 < t.len() {
            assert(t[p - 1] == s[p]);
        }
        lemma_insert_version_at(x, t, p - 1);
        assert(s.take(p) + seq![x] + s.skip(p) =~= seq![s[0]] + (t.take(p - 1) + seq![x]
            + t.skip(p - 1)));
    }
}

/// The versions that the keys of crandb's `versions` object write, in
/// ascending order; keys that are not versions are left out, and equal
/// versions keep the order of their keys.
pub fn versions_from_keys(keys: &Vec<String>) -> (r: Vec<RVersion>)
    ensures
        version_views(r@) == sort_versions(parsed_versions(keys@.map_values(|s: String| s@))),
{
    let ghost ks = keys@.map_values(|s: String| s@);
    let mut out: Vec<RVersion> = Vec::new();
    let mut i: usize = 0;
    while i < keys.len()
        invariant
            i <= keys.len(),
            ks == keys@.map_values(|s: String| s@),
            version_views(out@) == sort_versions(parsed_versions(ks.take(i as int))),
        decreases keys.len() - i,
    {
        assert(ks.take(i + 1).drop_last() =~= ks.take(i as int));
        assert(ks.take(i + 1).last() == keys@[i as int]@);
        match RVersion::parse(keys[i].as_str()) {
            Some(x) => {
                let mut p: usize = 0;
                while p < out.len() && x.order(&out[p]) >= 0
                    invariant
                        p <= out.len(),
                        forall|k: int|
                            0 <= k < p ==> version_order(x@, #[trigger] version_views(out@)[k]) >= 0,
                    decreases out.len() - p,
                {
                    assert(version_views(out@)[p as int] == out@[p as int]@);
                    p += 1;
                }
                proof {
                    if p < out.len() {
                        assert(version_views(out@)[p as int] == out@[p as int]@);
                    }
                    lemma_insert_version_at(x@, version_views(out@), p as int);
                }
                let ghost before = out@;
                let ghost xv = x@;
                out.insert(p, x);
                assert(version_views(out@) =~= version_views(before).take(p as int) + seq![xv]
                    + version_views(before).skip(p as int));
                let ghost pre = parsed_versions(ks.take(i as int));
                assert(parsed_versions(ks.take(i + 1)) == pre.push(xv));
                assert(pre.push(xv).drop_last() =~= pre);
                assert(sort_versions(pre.push(xv)) == insert_version(xv, sort_versions(pre)));
            },
            None => {
                assert(parsed_versions(ks.take(i + 1)) == parsed_versions(ks.take(i as int)));
            },
        }
        i += 1;
    }
    assert(ks.take(keys.len() as int) =~= ks);
    out
}

/// The highest of the versions, listed in ascending order, whose flag is set:
/// the last one flagged.
pub open spec fn last_flagged(vs: Seq<Seq<u32>>, flags: Seq<bool>) -> Option<Seq<u32>>
    decreases vs.len(),
{
    if vs.len() == 0 || flags.len() == 0 {
        None
    } else if flags[vs.len() - 1] {
        Some(vs.last())
    } else {
        last_flagged(vs.drop_last(), flags)
    }
}

/// Law: of versions in ascending order, the last one flagged is the greatest
/// flagged one: it is flagged, and every flagged version comes before or
/// equals it; there is none exactly when no version is flagged.
pub proof fn lemma_last_flagged_greatest(vs: Seq<Seq<u32>>, flags: Seq<bool>)
    requires
        versions_ascend(vs),
        vs.len() <= flags.len(),
    ensures
        match last_flagged(vs, flags) {
            Some(v) => (exists|i: int| 0 <= i < vs.len() && flags[i] && vs[i] == v) && (forall|
                j: int,
            | 0 <= j < vs.len() && #[trigger] flags[j] ==> version_order(vs[j], v) <= 0),
            None => forall|j: int| 0 <= j < vs.len() ==> !#[trigger] flags[j],
        },
    decreases vs.len(),
{
    if vs.len() == 0 {
    } else if flags[vs.len() - 1] {
        let n = vs.len() - 1;
        lemma_version_order_reflexive(vs[n]);
        assert(0 <= n < vs.len() && flags[n] && vs[n] == vs.last());
    } else {
        let t = vs.drop_last();
        assert(versions_ascend(t)) by {
            assert forall|i: int, j: int| 0 <= i < j < t.len() implies version_order(t[i], t[j])
                <= 0 by {
                assert(t[i] == vs[i]);
                assert(t[j] == vs[j]);
            }
        }
        lemma_last_flagged_greatest(t, flags);
        match last_flagged(t, flags) {
            Some(v) => {
                let i = choose|i: int| 0 <= i < t.len() && flags[i] && t[i] == v;
                assert(vs[i] == v);
                assert forall|j: int| 0 <= j < vs.len() && #[trigger] flags[j] implies version_order(
                    vs[j],
                    v,
                ) <= 0 by {
                    assert(j < t.len());
                    assert(vs[j] == t[j]);
                }
            },
            None => {},
        }
    }
}

// ---------------------------------------------------------------------------
// Dependencies of one version
// ---------------------------------------------------------------------------

/// The constraint of a crandb entry: none for `*` or for a value that is not
/// text, and otherwise the constraint that the text writes, if it writes one.
pub open spec fn crandb_req(c: Option<Seq<char>>) -> Option<(crate::version::Op, Seq<u32>)> {
    match c {
        Some(t) => if t == "*"@ {
            None
        } else {
            parse_req(t)
        },
        None => None,
    }
}

/// The dependencies that crandb's `Imports` and `Depends` entries (package
/// name and constraint text) give, in order, leaving out base packages.
pub open spec fn crandb_deps(entries: Seq<(Seq<char>, Option<Seq<char>>)>) -> Seq<DepView>
    decreases entries.len(),
{
    if entries.len() == 0 {
        seq![]
    } else {
        let rest = crandb_deps(entries.drop_last());
        let e = entries.last();
        if base_packages().contains(e.0) {
            rest
        } else {
            rest.push((e.0, crandb_req(e.1)))
        }
    }
}

/// Law: no package that ships with R is ever among the dependencies that
/// crandb's entries give.
pub proof fn lemma_crandb_deps_skip_shipped(entries: Seq<(Seq<char>, Option<Seq<char>>)>)
    ensures
        forall|k: int|
            0 <= k < crandb_deps(entries).len() ==> !ships_with_r(#[trigger] crandb_deps(entries)[k].0),
    decreases entries.len(),
{
    if entries.len() > 0 {
        lemma_crandb_deps_skip_shipped(entries.drop_last());
        let rest = crandb_deps(entries.drop_last());
        let e = entries.last();
        if !base_packages().contains(e.0) {
            if ships_with_r(e.0) {
                lemma_shipped_packages_are_base(e.0);
            }
            assert forall|k: int| 0 <= k < rest.push((e.0, crandb_req(e.1))).len() implies !ships_with_r(
                #[trigger] rest.push((e.0, crandb_req(e.1)))[k].0,
            ) by {
                if k < rest.len() {
                    assert(rest.push((e.0, crandb_req(e.1)))[k] == rest[k]);
                }
            }
        }
    }
}

/// The views of crandb entries.
pub open spec fn entry_views(v: Seq<(String, Option<String>)>) -> Seq<(Seq<char>, Option<Seq<char>>)> {
    v.map_values(
        |e: (String, Option<String>)|
            (
                e.0@,
                match e.1 {
                    Some(t) => Some(t@),
                    None => None,
                },
            ),
    )
}

/// The dependencies that crandb's `Imports` and `Depends` entries give: one
/// per entry that is not a base package, with the constraint its text writes
/// (none for `*`).
pub fn deps_from_crandb(entries: &Vec<(String, Option<String>)>) -> (r: Vec<Dep>)
    ensures
        r@.map_values(|d: Dep| d@) == crandb_deps(entry_views(entries@)),
{
    let base = base_package_list();
    let star = chars_of("*");
    let ghost ev = entry_views(entries@);
    let mut out: Vec<Dep> = Vec::new();
    let mut i: usize = 0;
    while i < entries.len()
        invariant
            i <= entries.len(),
            ev == entry_views(entries@),
            views(base@) == base_packages(),
            star@ == "*"@,
            out@.map_values(|d: Dep| d@) == crandb_deps(ev.take(i as int)),
        decreases entries.len() - i,
    {
        assert(ev.take(i + 1).drop_last() =~= ev.take(i as int));
        assert(ev.take(i + 1).last() == ev[i as int]);
        let (name, constraint) = &entries[i];
        let n = chars_of(name.as_str());
        if !is_listed(&base, &n) {
            let req = match constraint {
                Some(t) => {
                    let tc = chars_of(t.as_str());
                    if chars_eq(&tc, &star) {
                        None
                    } else {
                        VersionReq::parse(t.as_str())
                    }
                },
                None => None,
            };
            let ghost before = out@;
            let d = Dep::new(name.clone(), req);
            out.push(d);
            assert(out@.map_values(|d: Dep| d@) =~= before.map_values(|d: Dep| d@).push(d@));
        }
        i += 1;
    }
    assert(ev.take(entries.len() as int) =~= ev);
    out
}

// ---------------------------------------------------------------------------
// Reading crandb's answers with serde_json
// ---------------------------------------------------------------------------

/// What serde_json reads as the keys of the object under `field` of the JSON
/// document `body`, in the order its map keeps them; `None` where `body` is
/// not JSON or holds no object under `field`.
pub uninterp spec fn json_object_keys(body: Seq<u8>, field: Seq<char>) -> Option<Seq<Seq<char>>>;

/// What serde_json reads as the entries of the object under `field` of the
/// JSON document `body`, in the order its map keeps them, each key with its
/// value's text where the value is a string: `None` where `body` is not JSON,
/// `Some(None)` where it holds no object under `field`.
pub uninterp spec fn json_object_entries(body: Seq<u8>, field: Seq<char>) -> Option<
    Option<Seq<(Seq<char>, Option<Seq<char>>)>>,
>;

/// The texts of an optional list of strings.
pub open spec fn opt_texts(r: Option<Vec<String>>) -> Option<Seq<Seq<char>>> {
    match r {
        Some(v) => Some(v@.map_values(|s: String| s@)),
        None => None,
    }
}

/// The view of what reading the entries of an object gave.
pub open spec fn nested_entries_view(r: Option<Option<Vec<(String, Option<String>)>>>) -> Option<
    Option<Seq<(Seq<char>, Option<Seq<char>>)>>,
> {
    match r {
        Some(Some(v)) => Some(Some(entry_views(v@))),
        Some(None) => Some(None),
        None => None,
    }
}

/// Calls `serde_json::from_slice` for a `serde_json::Value`, indexes it by
/// `field`, and takes the keys of `Value::as_object`. The contract claims only
/// that the result is `json_object_keys` of the bytes and the field.
#[verifier::external_body]
fn object_keys(body: &[u8], field: &str) -> (r: Option<Vec<String>>)
    ensures
        opt_texts(r) == json_object_keys(body@, field@),
{
    let json: serde_json::Value = serde_json::from_slice(body).ok()?;
    json[field].as_object().map(|obj| obj.keys().cloned().collect())
}

/// Calls `serde_json::from_slice` for a `serde_json::Value`, indexes it by
/// `field`, and takes the entries of `Value::as_object`, each value through
/// `Value::as_str`. The contract claims only that the result is
/// `json_object_entries` of the bytes and the field.
#[verifier::external_body]
fn object_entries(body: &[u8], field: &str) -> (r: Option<Option<Vec<(String, Option<String>)>>>)
    ensures
        nested_entries_view(r) == json_object_entries(body@, field@),
{
    let json: serde_json::Value = serde_json::from_slice(body).ok()?;
    Some(
        json[field].as_object().map(
            |obj| obj.iter().map(|(k, v)| (k.clone(), v.as_str().map(|t| t.to_string()))).collect(),
        ),
    )
}

/// The versions that a crandb `/all` answer lists.
pub open spec fn versions_of_keys(keys: Option<Seq<Seq<char>>>) -> Seq<Seq<u32>> {
    match keys {
        Some(ks) => sort_versions(parsed_versions(ks)),
        None => seq![],
    }
}

/// The versions that the crandb `/all` answer `body` lists under `versions`,
/// in ascending order; none where the body is not JSON or lists no versions.
pub fn available_versions_from_json(body: &[u8]) -> (r: Vec<RVersion>)
    ensures
        version_views(r@) == versions_of_keys(json_object_keys(body@, "versions"@)),
{
    match object_keys(body, "versions") {
        Some(keys) => versions_from_keys(&keys),
        None => {
            let r: Vec<RVersion> = Vec::new();
            assert(version_views(r@) =~= seq![]);
            r
        },
    }
}

/// The entries of an object that may be missing.
pub open spec fn entries_or_none(
    e: Option<Seq<(Seq<char>, Option<Seq<char>>)>>,
) -> Seq<(Seq<char>, Option<Seq<char>>)> {
    match e {
        Some(s) => s,
        None => seq![],
    }
}

/// The dependencies that a crandb answer gives, where reading its `Imports`
/// and `Depends` objects gave `imports` and `depends`: none where the answer
/// was not JSON, and otherwise those of the `Imports` entries followed by
/// those of the `Depends` entries.
pub open spec fn deps_of_fields(
    imports: Option<Option<Seq<(Seq<char>, Option<Seq<char>>)>>>,
    depends: Option<Option<Seq<(Seq<char>, Option<Seq<char>>)>>>,
) -> Option<Seq<DepView>> {
    match (imports, depends) {
        (Some(i), Some(d)) => Some(crandb_deps(entries_or_none(i) + entries_or_none(d))),
        _ => None,
    }
}

/// The views of an optional list of dependencies.
pub open spec fn opt_deps_view(r: Option<Vec<Dep>>) -> Option<Seq<DepView>> {
    match r {
        Some(v) => Some(v@.map_values(|d: Dep| d@)),
        None => None,
    }
}

/// The list that an object that may be missing holds.
fn entries_or_empty(e: Option<Vec<(String, Option<String>)>>) -> (r: Vec<(String, Option<String>)>)
    ensures
        entry_views(r@) == entries_or_none(nested_inner_view(e)),
{
    match e {
        Some(v) => v,
        None => {
            let r: Vec<(String, Option<String>)> = Vec::new();
            assert(entry_views(r@) =~= seq![]);
            r
        },
    }
}

/// The view of the entries of an object that may be missing.
pub open spec fn nested_inner_view(e: Option<Vec<(String, Option<String>)>>) -> Option<
    Seq<(Seq<char>, Option<Seq<char>>)>,
> {
    match e {
        Some(v) => Some(entry_views(v@)),
        None => None,
    }
}

/// The dependencies of a package version, where reading the `Imports` and
/// `Depends` objects of crandb's answer gave `imports` and `depends`.
pub fn deps_given_entries(
    imports: Option<Option<Vec<(String, Option<String>)>>>,
    depends: Option<Option<Vec<(String, Option<String>)>>>,
) -> (r: Option<Vec<Dep>>)
    ensures
        opt_deps_view(r) == deps_of_fields(nested_entries_view(imports), nested_entries_view(depends)),
{
    match (imports, depends) {
        (Some(i), Some(d)) => {
            let mut all = entries_or_empty(i);
            let mut rest = entries_or_empty(d);
            let ghost a0 = all@;
            let ghost r0 = rest@;
            all.append(&mut rest);
            assert(entry_views(all@) =~= entry_views(a0) + entry_views(r0));
            Some(deps_from_crandb(&all))
        },
        _ => None,
    }
}

/// The dependencies that the crandb answer `body` for one package version
/// gives: those of its `Imports` object, then those of its `Depends` object,
/// leaving out base packages; none where the body is not JSON.
pub fn package_deps_from_json(body: &[u8]) -> (r: Option<Vec<Dep>>)
    ensures
        opt_deps_view(r) == deps_of_fields(
            json_object_entries(body@, "Imports"@),
            json_object_entries(body@, "Depends"@),
        ),
{
    let imports = object_entries(body, "Imports");
    let depends = object_entries(body, "Depends");
    deps_given_entries(imports, depends)
}

} // verus!
