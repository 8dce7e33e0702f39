//! The decisions of dependency resolution. The PubGrub solver asks which
//! version of a package to try and what that version depends on; these are
//! the answers, given the package index and what crandb said. Resolving
//! several project dependencies at once goes through a synthetic root package
//! that depends on all of them.
use vstd::prelude::*;
use crate::crandb::last_flagged;
use crate::index::{index_view, Package, PackageView};
use crate::name_map::{value_views, Duplicate, NameMap};
use crate::text::{
    chars_of, decimal_chars, decimal_text, extend_chars, lines, lines_exec, replace, replace_exec,
    string_of, trim_end, trim_end_chars, views,
};
use crate::version::{parse_version, version_order, version_text, Dep, RVersion};

verus! {

// ---------------------------------------------------------------------------
// Choosing a version
// ---------------------------------------------------------------------------

/// The version of a package in the index: the version its text writes, or
/// the lowest version "0" when the text is not a version; `None` when the
/// index lacks the package.
pub open spec fn index_version_of(index: Map<Seq<char>, PackageView>, package: Seq<char>) -> Option<
    Seq<u32>,
> {
    if index.contains_key(package) {
        match parse_version(index[package].0) {
            Some(v) => Some(v),
            None => Some(seq![0u32]),
        }
    } else {
        None
    }
}

/// The version of `package` in the index (see `index_version_of`).
pub fn index_version(index: &NameMap<Package>, package: &str) -> (r: Option<RVersion>)
    ensures
        match r {
            Some(v) => index_version_of(index_view(index@), package@) == Some(v@),
            None => index_version_of(index_view(index@), package@) is None,
        },
{
    match index.get(package) {
        Some(p) => match RVersion::parse(p.version.as_str()) {
            Some(v) => Some(v),
            None => Some(RVersion::minimum()),
        },
        None => None,
    }
}

/// The version to resolve a root package at: its version in the index, or
/// "0" when the index lacks it.
pub fn root_version(index: &NameMap<Package>, root: &str) -> (r: RVersion)
    ensures
        r@ == match index_version_of(index_view(index@), root@) {
            Some(v) => v,
            None => seq![0u32],
        },
{
    match index_version(index, root) {
        Some(v) => v,
        None => RVersion::minimum(),
    }
}

/// How to pick the version of a package that the solver asks for.
pub enum VersionPlan {
    /// The index lacks the package: there is no version to offer.
    NoVersion,
    /// The version in the index fits the range: offer it.
    Take(RVersion),
    /// The version in the index does not fit: offer the highest of the
    /// package's known versions that fits (see `highest_fitting`).
    SearchHistory,
}

/// The plan for picking a version, given the package's version in the index
/// (`None` when the index lacks it) and whether that version fits the range
/// the solver asks about: the index version when it fits, otherwise a search
/// of the package's history.
pub fn plan_version(index_version: Option<RVersion>, index_fits: bool) -> (r: VersionPlan)
    ensures
        match index_version {
            None => r is NoVersion,
            Some(v) => if index_fits {
                r matches VersionPlan::Take(t) && t@ == v@
            } else {
                r is SearchHistory
            },
        },
{
    match index_version {
        None => VersionPlan::NoVersion,
        Some(v) => if index_fits {
            VersionPlan::Take(v)
        } else {
            VersionPlan::SearchHistory
        },
    }
}

/// The highest version that fits the range, from a list in ascending order
/// whose flags say which versions fit: the last one flagged.
pub fn highest_fitting(versions: &Vec<RVersion>, fits: &Vec<bool>) -> (r: Option<RVersion>)
    requires
        versions.len() == fits.len(),
    ensures
        match r {
            Some(v) => last_flagged(versions@.map_values(|x: RVersion| x@), fits@) == Some(v@),
            None => last_flagged(versions@.map_values(|x: RVersion| x@), fits@) is None,
        },
{
    let ghost vs = versions@.map_values(|x: RVersion| x@);
    let mut i: usize = versions.len();
    assert(vs.take(i as int) =~= vs);
    while i > 0
        invariant
            i <= versions.len(),
            versions.len() == fits.len(),
            vs == versions@.map_values(|x: RVersion| x@),
            last_flagged(vs, fits@) == last_flagged(vs.take(i as int), fits@),
        decreases i,
    {
        assert(vs.take(i as int).drop_last() =~= vs.take(i - 1));
        if fits[i - 1] {
            assert(vs.take(i as int).last() == versions@[i - 1]@);
            return Some(versions[i - 1].duplicate());
        }
        i -= 1;
    }
    None
}

// ---------------------------------------------------------------------------
// Dependencies of a version
// ---------------------------------------------------------------------------

/// Where the dependencies of a package version come from.
pub enum DepsPlan {
    /// The index lacks the package; the message says so.
    Unavailable(String),
    /// The version is the one in the index, whose dependencies hold.
    UseIndex,
    /// Another version: its dependencies are to be asked of crandb, for the
    /// version with this text.
    FetchVersion(String),
}

/// The message for a package that the index lacks.
pub open spec fn not_found_message(package: Seq<char>) -> Seq<char> {
    package + " not found in CRAN index"@
}

/// Where the dependencies of version `version` of `package` come from: the
/// index when it holds that version (an equal version counts), crandb when it
/// holds another, and nowhere when it lacks the package.
pub open spec fn deps_plan(index: Map<Seq<char>, PackageView>, package: Seq<char>, version: Seq<u32>) -> Option<
    Option<Seq<char>>,
> {
    match index_version_of(index, package) {
        None => None,
        Some(v) => if version_order(version, v) == 0 {
            Some(None)
        } else {
            Some(Some(version_text(version)))
        },
    }
}

/// Where the dependencies of version `version` of `package` come from.
pub fn plan_dependencies(index: &NameMap<Package>, package: &str, version: &RVersion) -> (r: DepsPlan)
    ensures
        match r {
            DepsPlan::Unavailable(m) => deps_plan(index_view(index@), package@, version@) is None
                && m@ == not_found_message(package@),
            DepsPlan::UseIndex => deps_plan(index_view(index@), package@, version@) == Some(
                None::<Seq<char>>,
            ),
            DepsPlan::FetchVersion(t) => deps_plan(index_view(index@), package@, version@) == Some(
                Some(t@),
            ),
        },
{
    match index_version(index, package) {
        None => {
            let mut m = chars_of(package);
            let tail = chars_of(" not found in CRAN index");
            extend_chars(&mut m, &tail);
            DepsPlan::Unavailable(string_of(&m))
        },
        Some(v) => {
            if version.order(&v) == 0 {
                DepsPlan::UseIndex
            } else {
                DepsPlan::FetchVersion(version.to_version_string())
            }
        },
    }
}

/// The dependencies to use for a version of `package`: those crandb gave for
/// it when it gave any, and otherwise those of the index.
pub fn dependencies_for(index: &NameMap<Package>, package: &str, historical: Option<Vec<Dep>>) -> (r: Option<Vec<Dep>>)
    ensures
        match historical {
            Some(h) => r is Some && r.unwrap()@.map_values(|d: Dep| d@) == h@.map_values(
                |d: Dep| d@,
            ),
            None => match r {
                Some(d) => index@.dom().contains(package@) && d@.map_values(|d: Dep| d@)
                    == index_view(index@)[package@].1,
                None => !index@.dom().contains(package@),
            },
        },
{
    match historical {
        Some(h) => Some(h),
        None => match index.get(package) {
            Some(p) => {
                let c = p.duplicate();
                Some(c.deps)
            },
            None => None,
        },
    }
}

// ---------------------------------------------------------------------------
// Several roots at once
// ---------------------------------------------------------------------------

/// The name of the synthetic root package.
pub open spec fn synthetic_root() -> Seq<char> {
    "__root__"@
}

/// The index with the synthetic root package, at version "0", depending on
/// the project dependencies `roots`.
pub fn with_synthetic_root(index: &NameMap<Package>, roots: &Vec<Dep>) -> (r: NameMap<Package>)
    ensures
        value_views(r@) == value_views(index@).insert(
            synthetic_root(),
            ("0"@, roots@.map_values(|d: Dep| d@)),
        ),
{
    let mut augmented = index.duplicate_map();
    let mut deps: Vec<Dep> = Vec::new();
    let mut i: usize = 0;
    while i < roots.len()
        invariant
            i <= roots.len(),
            deps@.map_values(|d: Dep| d@) == roots@.map_values(|d: Dep| d@).take(i as int),
        decreases roots.len() - i,
    {
        let ghost before = deps@;
        let d = roots[i].duplicate();
        deps.push(d);
        assert(deps@.map_values(|d: Dep| d@) =~= before.map_values(|d: Dep| d@).push(d@));
        assert(roots@.map_values(|d: Dep| d@).take(i + 1) =~= roots@.map_values(|d: Dep| d@).take(
            i as int,
        ).push(roots@[i as int]@));
        i += 1;
    }
    assert(roots@.map_values(|d: Dep| d@).take(i as int) =~= roots@.map_values(|d: Dep| d@));
    let root = string_of(&chars_of("__root__"));
    let version = string_of(&chars_of("0"));
    let p = Package { version, deps };
    let ghost before = augmented@;
    let ghost pv = p@;
    augmented.insert(root, p);
    assert(value_views(augmented@) =~= value_views(before).insert(synthetic_root(), pv));
    augmented
}

/// The resolution without the synthetic root package.
pub fn without_synthetic_root(resolved: NameMap<RVersion>) -> (r: NameMap<RVersion>)
    ensures
        r@ == resolved@.remove(synthetic_root()),
{
    let mut r = resolved;
    r.remove("__root__");
    r
}

// ---------------------------------------------------------------------------
// Explaining a failure
// ---------------------------------------------------------------------------

/// The lines that are not empty.
pub open spec fn non_empty(ls: Seq<Seq<char>>) -> Seq<Seq<char>>
    decreases ls.len(),
{
    if ls.len() == 0 {
        seq![]
    } else if ls.last().len() == 0 {
        non_empty(ls.drop_last())
    } else {
        non_empty(ls.drop_last()).push(ls.last())
    }
}

/// `n` copies of two spaces.
pub open spec fn indent(n: nat) -> Seq<char>
    decreases n,
{
    if n == 0 {
        seq![]
    } else {
        indent((n - 1) as nat) + seq![' ', ' ']
    }
}

/// Step `k` of the explanation: indented two spaces per step, numbered from
/// 1, with the synthetic root called "your project".
pub open spec fn step_line(k: nat, line: Seq<char>) -> Seq<char> {
    indent(k) + decimal_text(k + 1) + seq!['.', ' '] + replace(
        line,
        "__root__ 0"@,
        "your project"@,
    ) + seq!['\n']
}

/// The steps for the lines, in order.
pub open spec fn steps(ls: Seq<Seq<char>>) -> Seq<char>
    decreases ls.len(),
{
    if ls.len() == 0 {
        seq![]
    } else {
        steps(ls.drop_last()) + step_line((ls.len() - 1) as nat, ls.last())
    }
}

/// The explanation of a failed resolution: each line of the solver's report
/// that is not empty becomes a numbered step, indented more than the step
/// before it; white space at the end is dropped.
pub open spec fn no_solution_text(report: Seq<char>) -> Seq<char> {
    trim_end(steps(non_empty(lines(report))))
}

/// Formats the solver's report of why no solution exists as a numbered,
/// indented chain of steps.
pub fn format_no_solution(report: &str) -> (r: String)
    ensures
        r@ == no_solution_text(report@),
{
    let cs = chars_of(report);
    let ls = lines_exec(&cs);
    let ghost lv = views(ls@);
    let from = chars_of("__root__ 0");
    proof {
        reveal_strlit("__root__ 0");
    }
    let to = chars_of("your project");
    let mut out: Vec<char> = Vec::new();
    let mut step: usize = 0;
    let mut i: usize = 0;
    while i < ls.len()
        invariant
            i <= ls.len(),
            lv == views(ls@),
            from@ == "__root__ 0"@,
            from.len() > 0,
            to@ == "your project"@,
            step == non_empty(lv.take(i as int)).len(),
            step <= i,
            out@ == steps(non_empty(lv.take(i as int))),
        decreases ls.len() - i,
    {
        assert(lv[i as int] == ls@[i as int]@);
        assert(lv.take(i + 1).drop_last() =~= lv.take(i as int));
        assert(lv.take(i + 1).last() == lv[i as int]);
        if ls[i].len() > 0 {
            let ghost before = out@;
            let mut k: usize = 0;
            let ghost start = out@;
            while k < step
                invariant
                    k <= step,
                    out@ == start + indent(k as nat),
                decreases step - k,
            {
                out.push(' ');
                out.push(' ');
                assert(out@ =~= start + indent((k + 1) as nat));
                k += 1;
            }
            let num = decimal_chars((step + 1) as u64);
            extend_chars(&mut out, &num);
            out.push('.');
            out.push(' ');
            let line = replace_exec(&ls[i], &from, &to);
            extend_chars(&mut out, &line);
            out.push('\n');
            let ghost ne = non_empty(lv.take(i as int));
            assert(non_empty(lv.take(i + 1)) == ne.push(lv[i as int]));
            assert(ne.push(lv[i as int]).drop_last() =~= ne);
            assert(out@ =~= before + step_line(step as nat, lv[i as int]));
            step += 1;
        }
        i += 1;
    }
    assert(lv.take(ls.len() as int) =~= lv);
    let t = trim_end_chars(&out);
    string_of(&t)
}

} // verus!
