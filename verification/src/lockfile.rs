//! The lockfile `arrrv.lock`: the text written for a resolution, and the check
//! that a lockfile was made for the dependencies the project lists now.
use vstd::prelude::*;
use crate::config::{inline_items, quote};
use crate::index::{index_view, Package, PackageView};
use crate::name_map::NameMap;
use crate::sorting::{lemma_sort_texts_same, sort_texts, sorted_chars};
use crate::text::{chars_eq, chars_of, extend_chars, string_of, views};
use crate::version::RVersion;
use crate::toml_text::{all_strings, entries_view, entry_texts, opt_text, read_string_array, toml_string_array};

verus! {

/// The registry that every locked package comes from.
pub open spec fn registry() -> Seq<char> {
    "https://packagemanager.posit.co/cran/latest"@
}

/// The registry that every locked package comes from: RSPM's `cran/latest`.
pub fn default_registry() -> (r: String)
    ensures
        r@ == registry(),
{
    let r = chars_of("https://packagemanager.posit.co/cran/latest");
    string_of(&r)
}

/// The first lines of the lockfile.
pub open spec fn lock_header() -> Seq<char> {
    "# arrrv.lock \u{2014} generated, do not edit\n\nversion = 1\n\n"@
}

/// The manifest: the project's dependencies, sorted.
pub open spec fn manifest_section(roots: Seq<Seq<char>>) -> Seq<char> {
    "[manifest]\n"@ + "dependencies = ["@ + inline_items(sort_texts(roots)) + "]\n\n"@
}

/// `{ name = "d" }` for each name, separated by `, `.
pub open spec fn name_refs(ds: Seq<Seq<char>>) -> Seq<char>
    decreases ds.len(),
{
    if ds.len() == 0 {
        seq![]
    } else if ds.len() == 1 {
        "{ name = "@ + quote(ds[0]) + " }"@
    } else {
        name_refs(ds.drop_last()) + ", "@ + "{ name = "@ + quote(ds.last()) + " }"@
    }
}

/// The names of `ds` that are in `resolved`, in order.
pub open spec fn resolved_only(ds: Seq<Seq<char>>, resolved: Set<Seq<char>>) -> Seq<Seq<char>>
    decreases ds.len(),
{
    if ds.len() == 0 {
        seq![]
    } else if resolved.contains(ds.last()) {
        resolved_only(ds.drop_last(), resolved).push(ds.last())
    } else {
        resolved_only(ds.drop_last(), resolved)
    }
}

/// The dependencies line of a locked package: the package's dependencies
/// that were resolved too, sorted; nothing when there are none.
pub open spec fn deps_line(
    name: Seq<char>,
    resolved: Set<Seq<char>>,
    index: Map<Seq<char>, PackageView>,
) -> Seq<char> {
    if index.contains_key(name) && index[name].1.len() > 0 {
        let ds = resolved_only(
            sort_texts(index[name].1.map_values(|d: (Seq<char>, Option<(crate::version::Op, Seq<u32>)>)| d.0)),
            resolved,
        );
        if ds.len() > 0 {
            "dependencies = ["@ + name_refs(ds) + "]\n"@
        } else {
            seq![]
        }
    } else {
        seq![]
    }
}

/// The entry of one locked package. Its version is the version text of the
/// index (so "2.23-26" keeps its dash), or "0" when the index lacks it.
pub open spec fn package_entry(
    name: Seq<char>,
    resolved: Set<Seq<char>>,
    index: Map<Seq<char>, PackageView>,
) -> Seq<char> {
    let version = if index.contains_key(name) {
        index[name].0
    } else {
        "0"@
    };
    "[[package]]\n"@ + "name = "@ + quote(name) + "\n"@ + "version = "@ + quote(version) + "\n"@
        + "source = { registry = "@ + quote(registry()) + " }\n"@ + deps_line(name, resolved, index)
        + "\n"@
}

/// The entries of the packages `names`, in order.
pub open spec fn package_entries(
    names: Seq<Seq<char>>,
    resolved: Set<Seq<char>>,
    index: Map<Seq<char>, PackageView>,
) -> Seq<char>
    decreases names.len(),
{
    if names.len() == 0 {
        seq![]
    } else {
        package_entries(names.drop_last(), resolved, index) + package_entry(
            names.last(),
            resolved,
            index,
        )
    }
}

/// Appends the entry of the locked package `name`.
fn push_package_entry(
    out: &mut Vec<char>,
    name_chars: &Vec<char>,
    resolved: &NameMap<RVersion>,
    index: &NameMap<Package>,
)
    ensures
        final(out)@ == old(out)@ + package_entry(name_chars@, resolved@.dom(), index_view(index@)),
{
    let ghost iv = index_view(index@);
    let name = string_of(name_chars);
    let ghost before = out@;
    push_str(out, "[[package]]\n");
    push_str(out, "name = ");
    push_quoted(out, name_chars);
    push_str(out, "\n");
    push_str(out, "version = ");
    let entry = index.get(name.as_str());
    match entry {
        Some(p) => {
            let v = chars_of(p.version.as_str());
            push_quoted(out, &v);
        },
        None => {
            let v = chars_of("0");
            push_quoted(out, &v);
        },
    }
    push_str(out, "\n");
    push_str(out, "source = { registry = ");
    let reg = chars_of("https://packagemanager.posit.co/cran/latest");
    push_quoted(out, &reg);
    push_str(out, " }\n");
    let ghost mid = out@;
    match entry {
        Some(p) => {
            if p.deps.len() > 0 {
                push_deps_line(out, p, resolved);
            }
        },
        None => {},
    }
    assert(out@ =~= mid + deps_line(name_chars@, resolved@.dom(), iv));
    push_str(out, "\n");
    assert(out@ =~= before + package_entry(name_chars@, resolved@.dom(), iv));
}

/// The text of the lockfile for the project dependencies `roots` and the
/// resolved packages `names`: header, manifest, then one entry per package in
/// ascending order of name.
pub open spec fn lockfile_text(
    roots: Seq<Seq<char>>,
    names: Seq<Seq<char>>,
    resolved: Set<Seq<char>>,
    index: Map<Seq<char>, PackageView>,
) -> Seq<char> {
    lock_header() + manifest_section(roots) + package_entries(sort_texts(names), resolved, index)
}

/// Appends the characters of a literal.
fn push_str(out: &mut Vec<char>, s: &str)
    ensures
        final(out)@ == old(out)@ + s@,
{
    let c = chars_of(s);
    extend_chars(out, &c);
}

/// Appends `"d"`.
fn push_quoted(out: &mut Vec<char>, d: &Vec<char>)
    ensures
        final(out)@ == old(out)@ + quote(d@),
{
    out.push('"');
    extend_chars(out, d);
    out.push('"');
    assert(final(out)@ =~= old(out)@ + quote(d@));
}

/// Appends the dependencies line of a locked package.
fn push_deps_line(out: &mut Vec<char>, pkg: &Package, resolved: &NameMap<RVersion>)
    requires
        pkg.deps@.len() > 0,
    ensures
        ({
            let ds = resolved_only(
                sort_texts(pkg@.1.map_values(|d: (Seq<char>, Option<(crate::version::Op, Seq<u32>)>)| d.0)),
                resolved@.dom(),
            );
            final(out)@ == old(out)@ + if ds.len() > 0 {
                "dependencies = ["@ + name_refs(ds) + "]\n"@
            } else {
                seq![]
            }
        }),
{
    let mut names: Vec<String> = Vec::new();
    let mut i: usize = 0;
    while i < pkg.deps.len()
        invariant
            i <= pkg.deps.len(),
            names@.map_values(|s: String| s@) == pkg@.1.map_values(
                |d: (Seq<char>, Option<(crate::version::Op, Seq<u32>)>)| d.0,
            ).take(i as int),
        decreases pkg.deps.len() - i,
    {
        let ghost before = names@;
        let nm = pkg.deps[i].name.clone();
        assert(nm@ == pkg.deps@[i as int].name@);
        assert(pkg@.1[i as int] == pkg.deps@[i as int]@);
        names.push(nm);
        assert(names@.map_values(|s: String| s@) =~= before.map_values(|s: String| s@).push(nm@));
        assert(names@.map_values(|s: String| s@) =~= pkg@.1.map_values(
            |d: (Seq<char>, Option<(crate::version::Op, Seq<u32>)>)| d.0,
        ).take(i + 1));
        i += 1;
    }
    let ghost all = pkg@.1.map_values(|d: (Seq<char>, Option<(crate::version::Op, Seq<u32>)>)| d.0);
    assert(all.take(pkg.deps.len() as int) =~= all);
    let sorted = sorted_chars(&names);
    let ghost sv = views(sorted@);
    let mut kept: Vec<Vec<char>> = Vec::new();
    let mut k: usize = 0;
    while k < sorted.len()
        invariant
            k <= sorted.len(),
            sv == views(sorted@),
            views(kept@) == resolved_only(sv.take(k as int), resolved@.dom()),
        decreases sorted.len() - k,
    {
        let name = string_of(&sorted[k]);
        assert(sv[k as int] == sorted@[k as int]@);
        assert(sv.take(k + 1).drop_last() =~= sv.take(k as int));
        if resolved.contains_key(name.as_str()) {
            let ghost before = kept@;
            kept.push(chars_of(name.as_str()));
            assert(views(kept@) =~= views(before).push(sv[k as int]));
        }
        k += 1;
    }
    assert(sv.take(sorted.len() as int) =~= sv);
    if kept.len() > 0 {
        push_str(out, "dependencies = [");
        let ghost v = views(kept@);
        let mut j: usize = 0;
        let ghost start = out@;
        while j < kept.len()
            invariant
                j <= kept.len(),
                v == views(kept@),
                out@ == start + name_refs(v.take(j as int)),
            decreases kept.len() - j,
        {
            assert(v[j as int] == kept@[j as int]@);
            assert(v.take(j + 1).drop_last() =~= v.take(j as int));
            let ghost before = out@;
            if j > 0 {
                push_str(out, ", ");
            }
            push_str(out, "{ name = ");
            push_quoted(out, &kept[j]);
            push_str(out, " }");
            assert(out@ =~= start + name_refs(v.take(j + 1)));
            j += 1;
        }
        assert(v.take(kept.len() as int) =~= v);
        push_str(out, "]\n");
    }
}

/// The text of the lockfile for the project dependencies `roots`, the
/// resolved packages and the index they come from.
pub fn lockfile_contents(
    roots: &Vec<String>,
    resolved: &NameMap<RVersion>,
    index: &NameMap<Package>,
) -> (r: String)
    ensures
        r@ == lockfile_text(
            roots@.map_values(|s: String| s@),
            resolved.names(),
            resolved@.dom(),
            index_view(index@),
        ),
{
    let mut out: Vec<char> = Vec::new();
    push_str(&mut out, "# arrrv.lock \u{2014} generated, do not edit\n\nversion = 1\n\n");
    push_str(&mut out, "[manifest]\n");
    push_str(&mut out, "dependencies = [");
    let sorted_roots = sorted_chars(roots);
    let ghost sr = views(sorted_roots@);
    let ghost m0 = out@;
    let mut i: usize = 0;
    while i < sorted_roots.len()
        invariant
            i <= sorted_roots.len(),
            sr == views(sorted_roots@),
            out@ == m0 + inline_items(sr.take(i as int)),
        decreases sorted_roots.len() - i,
    {
        assert(sr[i as int] == sorted_roots@[i as int]@);
        assert(sr.take(i + 1).drop_last() =~= sr.take(i as int));
        if i > 0 {
            out.push(',');
            out.push(' ');
        }
        push_quoted(&mut out, &sorted_roots[i]);
        assert(out@ =~= m0 + inline_items(sr.take(i + 1)));
        i += 1;
    }
    assert(sr.take(sorted_roots.len() as int) =~= sr);
    push_str(&mut out, "]\n\n");
    let n = resolved.len();
    let mut names: Vec<String> = Vec::new();
    let mut k: usize = 0;
    while k < n
        invariant
            k <= n,
            n == resolved.names().len(),
            names@.map_values(|s: String| s@) == resolved.names().take(k as int),
        decreases n - k,
    {
        let ghost before = names@;
        let nm = resolved.name_at(k).clone();
        names.push(nm);
        assert(names@.map_values(|s: String| s@) =~= before.map_values(|s: String| s@).push(nm@));
        assert(names@.map_values(|s: String| s@) =~= resolved.names().take(k + 1));
        k += 1;
    }
    assert(resolved.names().take(n as int) =~= resolved.names());
    let sorted_names = sorted_chars(&names);
    let ghost sn = views(sorted_names@);
    let ghost iv = index_view(index@);
    let ghost p0 = out@;
    let mut j: usize = 0;
    while j < sorted_names.len()
        invariant
            j <= sorted_names.len(),
            sn == views(sorted_names@),
            iv == index_view(index@),
            out@ == p0 + package_entries(sn.take(j as int), resolved@.dom(), iv),
        decreases sorted_names.len() - j,
    {
        let ghost before = out@;
        assert(sn[j as int] == sorted_names@[j as int]@);
        push_package_entry(&mut out, &sorted_names[j], resolved, index);
        assert(sn.take(j + 1).last() == sn[j as int]);
        assert(sn.take(j + 1).drop_last() =~= sn.take(j as int));
        assert(out@ =~= before + package_entry(sn[j as int], resolved@.dom(), iv));
        assert(out@ =~= p0 + package_entries(sn.take(j + 1), resolved@.dom(), iv));
        j += 1;
    }
    assert(sn.take(sorted_names.len() as int) =~= sn);
    string_of(&out)
}

/// Whether a lockfile whose manifest lists `locked` was made for the project
/// dependencies `roots`: the two lists hold the same names, in any order.
pub fn manifest_matches(locked: &Vec<String>, roots: &Vec<String>) -> (r: bool)
    ensures
        r == (sort_texts(locked@.map_values(|s: String| s@)) == sort_texts(
            roots@.map_values(|s: String| s@),
        )),
        r == (locked@.map_values(|s: String| s@).to_multiset() == roots@.map_values(
            |s: String| s@,
        ).to_multiset()),
{
    proof {
        lemma_sort_texts_same(locked@.map_values(|s: String| s@), roots@.map_values(|s: String| s@));
    }
    let a = sorted_chars(locked);
    let b = sorted_chars(roots);
    if a.len() != b.len() {
        assert(views(a@).len() != views(b@).len());
        return false;
    }
    let mut i: usize = 0;
    while i < a.len()
        invariant
            i <= a.len(),
            a.len() == b.len(),
            forall|k: int| 0 <= k < i ==> views(a@)[k] == views(b@)[k],
            views(a@) == sort_texts(locked@.map_values(|s: String| s@)),
            views(b@) == sort_texts(roots@.map_values(|s: String| s@)),
            (sort_texts(locked@.map_values(|s: String| s@)) == sort_texts(
                roots@.map_values(|s: String| s@),
            )) <==> (locked@.map_values(|s: String| s@).to_multiset() == roots@.map_values(
                |s: String| s@,
            ).to_multiset()),
        decreases a.len() - i,
    {
        assert(views(a@)[i as int] == a@[i as int]@);
        assert(views(b@)[i as int] == b@[i as int]@);
        if !chars_eq(&a[i], &b[i]) {
            assert(views(a@)[i as int] != views(b@)[i as int]);
            assert(views(a@) != views(b@));
            return false;
        }
        i += 1;
    }
    assert(views(a@) =~= views(b@));
    true
}

/// Law: the names that a lock file's manifest lists for the project
/// dependencies `roots` (sorted, as `manifest_section` writes them) match a
/// list `current` exactly when the two hold the same names, each as often,
/// whatever their order.
pub proof fn lemma_written_manifest_matches(roots: Seq<Seq<char>>, current: Seq<Seq<char>>)
    ensures
        (sort_texts(sort_texts(roots)) == sort_texts(current)) <==> (roots.to_multiset()
            == current.to_multiset()),
{
    crate::sorting::lemma_sort_texts(roots);
    lemma_sort_texts_same(sort_texts(roots), current);
}

// ---------------------------------------------------------------------------
// Reading a lockfile
// ---------------------------------------------------------------------------

/// The `source` table of a locked package, as read from the lockfile.
pub struct LockedSource {
    pub registry: Option<String>,
}

/// One `[[package]]` entry of the lockfile, as read from it.
pub struct LockedPackage {
    pub name: String,
    pub version: String,
    pub source: Option<LockedSource>,
}

/// The registry of a locked package: the one its source names, and RSPM's
/// `cran/latest` where it has no source or its source names none.
pub open spec fn locked_registry(p: LockedPackage) -> Seq<char> {
    match p.source {
        Some(s) => match s.registry {
            Some(g) => g@,
            None => registry(),
        },
        None => registry(),
    }
}

/// The registry of a locked package (see `locked_registry`).
fn registry_of(p: &LockedPackage) -> (r: String)
    ensures
        r@ == locked_registry(*p),
{
    match &p.source {
        Some(s) => match &s.registry {
            Some(g) => g.clone(),
            None => default_registry(),
        },
        None => default_registry(),
    }
}

/// The locked packages as (name, version, registry) triples, in the order
/// the lockfile lists them.
pub fn locked_triples(ps: &Vec<LockedPackage>) -> (r: Vec<(String, String, String)>)
    ensures
        r@.len() == ps@.len(),
        forall|i: int|
            0 <= i < ps@.len() ==> (#[trigger] r@[i]).0@ == ps@[i].name@ && r@[i].1@
                == ps@[i].version@ && r@[i].2@ == locked_registry(ps@[i]),
{
    let mut out: Vec<(String, String, String)> = Vec::new();
    let mut i: usize = 0;
    while i < ps.len()
        invariant
            i <= ps.len(),
            out@.len() == i,
            forall|k: int|
                0 <= k < i ==> (#[trigger] out@[k]).0@ == ps@[k].name@ && out@[k].1@
                    == ps@[k].version@ && out@[k].2@ == locked_registry(ps@[k]),
        decreases ps.len() - i,
    {
        let p = &ps[i];
        let t = (p.name.clone(), p.version.clone(), registry_of(p));
        out.push(t);
        i += 1;
    }
    out
}

/// Whether a lockfile whose manifest reads as `manifest` was made for the
/// project dependencies `roots`: its manifest is an array of strings that
/// holds the same names as `roots`, each as often, in any order.
pub open spec fn fresh_given(
    manifest: Result<Option<Seq<Option<Seq<char>>>>, Seq<char>>,
    roots: Seq<Seq<char>>,
) -> bool {
    match manifest {
        Ok(Some(es)) => all_strings(es) && entry_texts(es).to_multiset() == roots.to_multiset(),
        _ => false,
    }
}

/// Whether a lockfile was made for the project dependencies `roots`, where
/// reading the `dependencies` array of its `[manifest]` table gave
/// `manifest`.
pub fn manifest_is_fresh(manifest: Result<Option<Vec<Option<String>>>, String>, roots: &Vec<String>) -> (r: bool)
    ensures
        r == fresh_given(entries_view(manifest), roots@.map_values(|s: String| s@)),
{
    let ghost mv = entries_view(manifest);
    let list = match manifest {
        Ok(Some(list)) => list,
        _ => {
            return false;
        },
    };
    let ghost es = list@.map_values(|e: Option<String>| opt_text(e));
    let mut locked: Vec<String> = Vec::new();
    let mut i: usize = 0;
    while i < list.len()
        invariant
            i <= list.len(),
            es == list@.map_values(|e: Option<String>| opt_text(e)),
            mv == Ok::<Option<Seq<Option<Seq<char>>>>, Seq<char>>(Some(es)),
            mv == entries_view(manifest),
            forall|k: int| 0 <= k < i ==> (#[trigger] es[k]) is Some,
            locked@.map_values(|s: String| s@) == entry_texts(es.take(i as int)),
        decreases list.len() - i,
    {
        match &list[i] {
            Some(s) => {
                let ghost before = locked@;
                locked.push(s.clone());
                assert(locked@.map_values(|s: String| s@) =~= before.map_values(|s: String| s@).push(s@));
                assert(entry_texts(es.take(i + 1)) =~= entry_texts(es.take(i as int)).push(s@));
            },
            None => {
                assert(es[i as int] is None);
                assert(!all_strings(es));
                return false;
            },
        }
        i += 1;
    }
    assert(es.take(list.len() as int) =~= es);
    manifest_matches(&locked, roots)
}

/// Whether the lockfile text `text` was made for the project dependencies
/// `roots`: its `[manifest]` table, read with `toml`, lists the same names,
/// each as often, in any order. A text that is not TOML, or whose manifest
/// lists no array of strings, was not.
pub fn lockfile_text_is_fresh(text: &str, roots: &Vec<String>) -> (r: bool)
    ensures
        r == fresh_given(
            toml_string_array(text@, "manifest"@, "dependencies"@),
            roots@.map_values(|s: String| s@),
        ),
{
    let manifest = read_string_array(text, "manifest", "dependencies");
    manifest_is_fresh(manifest, roots)
}

} // verus!
