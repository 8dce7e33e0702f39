//! The CRAN package index: the `PACKAGES` file, a list of mail-style header
//! blocks separated by blank lines, read into a map from package name to its
//! version and the packages it depends on.
use vstd::prelude::*;
use crate::name_map::{Duplicate, NameMap};
use crate::text::{
    chars_eq, chars_of, extend_chars, lines, lines_exec, split, split_exec, split_once,
    find_from, is_ws, split_once_exec, string_of, trim, trim_chars, trim_end, trim_start,
    views,
};
use crate::version::{Dep, Op};

verus! {

/// What the specifications say of a dependency: its name and constraint.
pub type DepView = (Seq<char>, Option<(Op, Seq<u32>)>);

/// What the specifications say of a package: its version text and its
/// dependencies.
pub type PackageView = (Seq<char>, Seq<DepView>);

/// An entry of the package index.
#[derive(Debug, Clone)]
pub struct Package {
    pub version: String,
    pub deps: Vec<Dep>,
}

impl View for Package {
    type V = PackageView;

    open spec fn view(&self) -> PackageView {
        (self.version@, self.deps@.map_values(|d: Dep| d@))
    }
}

impl Duplicate for Package {
    fn duplicate(&self) -> (r: Self) {
        let mut deps: Vec<Dep> = Vec::new();
        let mut i: usize = 0;
        while i < self.deps.len()
            invariant
                i <= self.deps.len(),
                deps@.map_values(|d: Dep| d@) == self.deps@.map_values(|d: Dep| d@).take(i as int),
            decreases self.deps.len() - i,
        {
            let ghost before = deps@;
            let d = self.deps[i].duplicate();
            assert(d@ == self.deps@[i as int]@);
            deps.push(d);
            assert(deps@.map_values(|d: Dep| d@) =~= before.map_values(|d: Dep| d@).push(d@));
            assert(deps@.map_values(|d: Dep| d@) =~= self.deps@.map_values(|d: Dep| d@).take(
                i + 1,
            ));
            i += 1;
        }
        assert(self.deps@.map_values(|d: Dep| d@).take(i as int) =~= self.deps@.map_values(
            |d: Dep| d@,
        ));
        Package { version: self.version.clone(), deps }
    }
}

/// The views of the packages of an index.
pub open spec fn index_view(m: Map<Seq<char>, Package>) -> Map<Seq<char>, PackageView> {
    m.map_values(|p: Package| p@)
}

// ---------------------------------------------------------------------------
// Specification of the PACKAGES format
// ---------------------------------------------------------------------------

/// The packages that ship with R and are never dependencies to install; the
/// one list that both the CRAN index and crandb's answers are read against.
pub open spec fn base_packages() -> Seq<Seq<char>> {
    seq![
        "R"@,
        "base"@,
        "compiler"@,
        "datasets"@,
        "grDevices"@,
        "graphics"@,
        "grid"@,
        "methods"@,
        "parallel"@,
        "splines"@,
        "stats"@,
        "stats4"@,
        "tcltk"@,
        "tools"@,
        "translations"@,
        "utils"@,
    ]
}

/// The package name of one comma-separated entry of an `Imports` or
/// `Depends` field: the trimmed entry up to its first space, so that a
/// constraint such as `(>= 1.1.0)` is dropped.
pub open spec fn entry_name(entry: Seq<char>) -> Seq<char> {
    let t = trim(entry);
    match split_once(t, seq![' ']) {
        Some((n, _)) => n,
        None => t,
    }
}

/// The dependencies that the entries name, in order, leaving out base
/// packages and empty names.
pub open spec fn kept_deps(entries: Seq<Seq<char>>) -> Seq<DepView>
    decreases entries.len(),
{
    if entries.len() == 0 {
        seq![]
    } else {
        let rest = kept_deps(entries.drop_last());
        let n = entry_name(entries.last());
        if n.len() > 0 && !base_packages().contains(n) {
            rest.push((n, None))
        } else {
            rest
        }
    }
}

/// The dependencies that the value of an `Imports` or `Depends` field lists.
pub open spec fn field_deps(val: Seq<char>) -> Seq<DepView> {
    kept_deps(split(val, seq![',']))
}

/// One step of joining continuation lines: a line that starts with a space
/// continues the previous one, joined by a single space and trimmed.
pub open spec fn join_step(acc: Seq<char>, line: Seq<char>) -> Seq<char> {
    if line.len() > 0 && line[0] == ' ' {
        acc.push(' ') + trim(line)
    } else if acc.len() > 0 {
        acc.push('\n') + line
    } else {
        acc + line
    }
}

/// The lines of a block with continuation lines joined onto the line before.
pub open spec fn join_lines(ls: Seq<Seq<char>>) -> Seq<char>
    decreases ls.len(),
{
    if ls.len() == 0 {
        seq![]
    } else {
        join_step(join_lines(ls.drop_last()), ls.last())
    }
}

/// The fields read from a block so far: package name, version, dependencies.
pub type Fields = (Option<Seq<char>>, Option<Seq<char>>, Seq<DepView>);

/// Reading one `Key: value` line of a block.
pub open spec fn field_step(f: Fields, line: Seq<char>) -> Fields {
    match split_once(line, seq![':', ' ']) {
        Some((key, val)) => if key == "Package"@ {
            (Some(val), f.1, f.2)
        } else if key == "Version"@ {
            (f.0, Some(val), f.2)
        } else if key == "Imports"@ || key == "Depends"@ {
            (f.0, f.1, f.2 + field_deps(val))
        } else {
            f
        },
        None => f,
    }
}

/// The fields that the lines of a block give, read from the first line on.
pub open spec fn read_fields(ls: Seq<Seq<char>>) -> Fields
    decreases ls.len(),
{
    if ls.len() == 0 {
        (None, None, seq![])
    } else {
        field_step(read_fields(ls.drop_last()), ls.last())
    }
}

/// The index entry that a block gives: its name and package, when it names
/// both a package and a version.
pub open spec fn block_entry(block: Seq<char>) -> Option<(Seq<char>, PackageView)> {
    let f = read_fields(lines(join_lines(lines(block))));
    match (f.0, f.1) {
        (Some(name), Some(version)) => Some((name, (version, f.2))),
        _ => None,
    }
}

/// The index that a list of blocks gives; a later block of the same name
/// replaces an earlier one.
pub open spec fn index_of_blocks(bs: Seq<Seq<char>>) -> Map<Seq<char>, PackageView>
    decreases bs.len(),
{
    if bs.len() == 0 {
        Map::empty()
    } else {
        let m = index_of_blocks(bs.drop_last());
        match block_entry(bs.last()) {
            Some((n, p)) => m.insert(n, p),
            None => m,
        }
    }
}

/// The index that a `PACKAGES` text describes: its blocks are separated by
/// blank lines.
pub open spec fn packages_of(text: Seq<char>) -> Map<Seq<char>, PackageView> {
    index_of_blocks(split(text, seq!['\n', '\n']))
}

/// Every dependency is named, is not a base package and has no constraint.
pub open spec fn plain_deps(ds: Seq<DepView>) -> bool {
    forall|k: int|
        0 <= k < ds.len() ==> (#[trigger] ds[k]).0.len() > 0 && !base_packages().contains(ds[k].0)
            && ds[k].1 is None
}

proof fn lemma_kept_deps_plain(entries: Seq<Seq<char>>)
    ensures
        plain_deps(kept_deps(entries)),
    decreases entries.len(),
{
    if entries.len() > 0 {
        lemma_kept_deps_plain(entries.drop_last());
    }
}

proof fn lemma_read_fields_plain(ls: Seq<Seq<char>>)
    ensures
        plain_deps(read_fields(ls).2),
    decreases ls.len(),
{
    if ls.len() > 0 {
        lemma_read_fields_plain(ls.drop_last());
        let f = read_fields(ls.drop_last());
        match split_once(ls.last(), seq![':', ' ']) {
            Some((key, val)) => {
                lemma_kept_deps_plain(split(val, seq![',']));
                let d = field_deps(val);
                assert forall|k: int| 0 <= k < (f.2 + d).len() implies ((#[trigger] (f.2
                    + d)[k]).0.len() > 0 && !base_packages().contains((f.2 + d)[k].0) && (f.2
                    + d)[k].1 is None) by {
                    if k >= f.2.len() {
                        assert((f.2 + d)[k] == d[k - f.2.len()]);
                    }
                }
            },
            None => {},
        }
    }
}

proof fn lemma_index_of_blocks_plain(bs: Seq<Seq<char>>)
    ensures
        forall|n: Seq<char>| #[trigger]
            index_of_blocks(bs).contains_key(n) ==> plain_deps(index_of_blocks(bs)[n].1),
    decreases bs.len(),
{
    if bs.len() > 0 {
        lemma_index_of_blocks_plain(bs.drop_last());
        lemma_read_fields_plain(lines(join_lines(lines(bs.last()))));
        let m = index_of_blocks(bs.drop_last());
        match block_entry(bs.last()) {
            Some((nm, p)) => {
                assert(index_of_blocks(bs) == m.insert(nm, p));
                assert(plain_deps(p.1));
                assert forall|n: Seq<char>| #[trigger]
                    index_of_blocks(bs).contains_key(n) implies plain_deps(
                    index_of_blocks(bs)[n].1,
                ) by {
                    if n != nm {
                        assert(m.contains_key(n));
                    }
                }
            },
            None => {},
        }
    }
}

/// Trailing white space trims back to no further than a character that is
/// not white space.
proof fn lemma_trim_end_keeps(s: Seq<char>, p: int) -> (q: int)
    requires
        0 <= p < s.len(),
        !is_ws(s[p]),
    ensures
        p < q <= s.len(),
        trim_end(s) == s.take(q),
    decreases s.len(),
{
    if is_ws(s.last()) {
        let q = lemma_trim_end_keeps(s.drop_last(), p);
        assert(s.drop_last().take(q) =~= s.take(q));
        q
    } else {
        assert(s.take(s.len() as int) =~= s);
        s.len() as int
    }
}

/// The first space at or after `i` is at `j` when none lies in between.
proof fn lemma_first_space(s: Seq<char>, i: int, j: int)
    requires
        0 <= i <= j <= s.len(),
        forall|k: int| i <= k < j ==> s[k] != ' ',
    ensures
        j < s.len() && s[j] == ' ' ==> find_from(s, seq![' '], i) == Some(j),
        j == s.len() ==> find_from(s, seq![' '], i) is None,
    decreases j - i,
{
    if i < j {
        assert(s.subrange(i, i + 1) != seq![' ']) by {
            assert(s.subrange(i, i + 1)[0] == s[i]);
        }
        lemma_first_space(s, i + 1, j);
    } else if j < s.len() && s[j] == ' ' {
        assert(s.subrange(j, j + 1) =~= seq![' ']);
    }
}

/// Law: the package named by an `Imports` or `Depends` entry is its first
/// word: a name without white space, followed by a space and anything else
/// (such as a version constraint), names that package.
pub proof fn lemma_entry_name_first_word(n: Seq<char>, rest: Seq<char>)
    requires
        n.len() > 0,
        forall|k: int| 0 <= k < n.len() ==> !is_ws(#[trigger] n[k]),
    ensures
        entry_name(n + seq![' '] + rest) == n,
        entry_name(n) == n,
{
    let e = n + seq![' '] + rest;
    assert(e[0] == n[0]);
    assert(trim_start(e) == e);
    assert(e[n.len() - 1] == n[n.len() - 1]);
    let q = lemma_trim_end_keeps(e, n.len() - 1);
    let t = trim(e);
    assert(t == e.take(q));
    assert forall|k: int| 0 <= k < n.len() implies t[k] != ' ' by {
        assert(t[k] == n[k]);
        assert(!is_ws(n[k]));
    }
    if q > n.len() {
        assert(t[n.len() as int] == ' ');
        lemma_first_space(t, 0, n.len() as int);
        assert(t.subrange(0, n.len() as int) =~= n);
    } else {
        assert(t =~= n);
        lemma_first_space(t, 0, n.len() as int);
    }
    assert(trim_start(n) == n);
    let q2 = lemma_trim_end_keeps(n, n.len() - 1);
    assert(n.take(q2) =~= n);
    assert forall|k: int| 0 <= k < n.len() implies n[k] != ' ' by {
        assert(!is_ws(n[k]));
    }
    lemma_first_space(n, 0, n.len() as int);
}

/// The packages that ship with R itself, named one by one.
pub open spec fn ships_with_r(n: Seq<char>) -> bool {
    ||| n == "R"@
    ||| n == "base"@
    ||| n == "compiler"@
    ||| n == "datasets"@
    ||| n == "grDevices"@
    ||| n == "graphics"@
    ||| n == "grid"@
    ||| n == "methods"@
    ||| n == "parallel"@
    ||| n == "splines"@
    ||| n == "stats"@
    ||| n == "stats4"@
    ||| n == "tcltk"@
    ||| n == "tools"@
    ||| n == "translations"@
    ||| n == "utils"@
}

/// Law: every package that ships with R is one that the readers of the
/// index and of crandb leave out.
pub proof fn lemma_shipped_packages_are_base(n: Seq<char>)
    requires
        ships_with_r(n),
    ensures
        base_packages().contains(n),
{
    assert(base_packages()[0] == "R"@);
    assert(base_packages()[1] == "base"@);
    assert(base_packages()[2] == "compiler"@);
    assert(base_packages()[3] == "datasets"@);
    assert(base_packages()[4] == "grDevices"@);
    assert(base_packages()[5] == "graphics"@);
    assert(base_packages()[6] == "grid"@);
    assert(base_packages()[7] == "methods"@);
    assert(base_packages()[8] == "parallel"@);
    assert(base_packages()[9] == "splines"@);
    assert(base_packages()[10] == "stats"@);
    assert(base_packages()[11] == "stats4"@);
    assert(base_packages()[12] == "tcltk"@);
    assert(base_packages()[13] == "tools"@);
    assert(base_packages()[14] == "translations"@);
    assert(base_packages()[15] == "utils"@);
}

/// Law: no package that ships with R is ever a dependency in the index that a
/// `PACKAGES` text gives.
pub proof fn lemma_packages_skip_shipped(text: Seq<char>, name: Seq<char>)
    requires
        packages_of(text).contains_key(name),
    ensures
        forall|k: int|
            0 <= k < packages_of(text)[name].1.len() ==> !ships_with_r(
                #[trigger] packages_of(text)[name].1[k].0,
            ),
{
    lemma_packages_deps_plain(text, name);
    let ds = packages_of(text)[name].1;
    assert forall|k: int| 0 <= k < ds.len() implies !ships_with_r(#[trigger] ds[k].0) by {
        if ships_with_r(ds[k].0) {
            lemma_shipped_packages_are_base(ds[k].0);
        }
    }
}

/// Law: a field wrapped onto a continuation line reads as if it were written
/// on one line: a line `a` followed by a line of spaces and then `b` joins to
/// the same text as the single line `a b`.
pub proof fn lemma_wrapped_line_joins(ls: Seq<Seq<char>>, a: Seq<char>, sp: Seq<char>, b: Seq<char>)
    requires
        a.len() > 0,
        a[0] != ' ',
        sp.len() > 0,
        forall|k: int| 0 <= k < sp.len() ==> sp[k] == ' ',
        b.len() > 0 ==> !is_ws(b[0]) && !is_ws(b.last()),
    ensures
        join_lines(ls.push(a).push(sp + b)) == join_lines(ls.push(a + seq![' '] + b)),
{
    lemma_trim_spaces(sp, b);
    assert(ls.push(a).push(sp + b).drop_last() =~= ls.push(a));
    assert(ls.push(a).drop_last() =~= ls);
    assert(ls.push(a + seq![' '] + b).drop_last() =~= ls);
    assert((a + seq![' '] + b)[0] == a[0]);
    let j = join_lines(ls);
    let c = sp + b;
    let one = a + seq![' '] + b;
    assert(c[0] == ' ');
    assert(join_lines(ls.push(a)) == join_step(j, a));
    assert(join_lines(ls.push(a).push(c)) == join_step(join_lines(ls.push(a)), c));
    assert(join_lines(ls.push(one)) == join_step(j, one));
    assert(join_step(join_lines(ls.push(a)), c) == join_lines(ls.push(a)).push(' ') + b);
    if j.len() > 0 {
        assert(j.push('\n') + a + seq![' '] + b =~= (j.push('\n') + a).push(' ') + b);
    } else {
        assert(j + a + seq![' '] + b =~= (j + a).push(' ') + b);
    }
}

/// Spaces before a text without white space at its ends trim away.
proof fn lemma_trim_spaces(sp: Seq<char>, b: Seq<char>)
    requires
        forall|k: int| 0 <= k < sp.len() ==> sp[k] == ' ',
        b.len() > 0 ==> !is_ws(b[0]) && !is_ws(b.last()),
    ensures
        trim(sp + b) == b,
    decreases sp.len(),
{
    if sp.len() > 0 {
        assert((sp + b)[0] == ' ');
        assert((sp + b).drop_first() =~= sp.drop_first() + b);
        lemma_trim_spaces(sp.drop_first(), b);
    } else {
        assert(sp + b =~= b);
    }
}

/// Law: in the index that a `PACKAGES` text gives, every dependency is named,
/// is not a base package of R and carries no version constraint.
pub proof fn lemma_packages_deps_plain(text: Seq<char>, name: Seq<char>)
    requires
        packages_of(text).contains_key(name),
    ensures
        plain_deps(packages_of(text)[name].1),
{
    lemma_index_of_blocks_plain(split(text, seq!['\n', '\n']));
}

// ---------------------------------------------------------------------------
// Reading the PACKAGES format
// ---------------------------------------------------------------------------

/// The base packages, as character vectors.
pub(crate) fn base_package_list() -> (r: Vec<Vec<char>>)
    ensures
        views(r@) == base_packages(),
{
    let r = vec![
        chars_of("R"),
        chars_of("base"),
        chars_of("compiler"),
        chars_of("datasets"),
        chars_of("grDevices"),
        chars_of("graphics"),
        chars_of("grid"),
        chars_of("methods"),
        chars_of("parallel"),
        chars_of("splines"),
        chars_of("stats"),
        chars_of("stats4"),
        chars_of("tcltk"),
        chars_of("tools"),
        chars_of("translations"),
        chars_of("utils"),
    ];
    assert(views(r@) =~= base_packages());
    r
}

/// Whether `n` is one of `list`.
pub(crate) fn is_listed(list: &Vec<Vec<char>>, n: &Vec<char>) -> (r: bool)
    ensures
        r == views(list@).contains(n@),
{
    let mut i: usize = 0;
    while i < list.len()
        invariant
            i <= list.len(),
            forall|k: int| 0 <= k < i ==> views(list@)[k] != n@,
        decreases list.len() - i,
    {
        if chars_eq(&list[i], n) {
            assert(views(list@)[i as int] == n@);
            return true;
        }
        i += 1;
    }
    proof {
        if views(list@).contains(n@) {
            let k = choose|k: int| 0 <= k < views(list@).len() && views(list@)[k] == n@;
            assert(views(list@)[k] != n@);
        }
    }
    false
}

/// Appends the dependencies that the field value `val` lists to `deps`.
fn push_field_deps(val: &Vec<char>, base: &Vec<Vec<char>>, deps: &mut Vec<Dep>)
    requires
        views(base@) == base_packages(),
    ensures
        final(deps)@.map_values(|d: Dep| d@) == old(deps)@.map_values(|d: Dep| d@) + field_deps(
            val@,
        ),
{
    let comma: Vec<char> = vec![','];
    let space: Vec<char> = vec![' '];
    assert(comma@ =~= seq![',']);
    assert(space@ =~= seq![' ']);
    let entries = split_exec(val, &comma);
    let ghost es = views(entries@);
    let mut i: usize = 0;
    while i < entries.len()
        invariant
            i <= entries.len(),
            es == views(entries@),
            es == split(val@, seq![',']),
            views(base@) == base_packages(),
            space@ == seq![' '],
            deps@.map_values(|d: Dep| d@) == old(deps)@.map_values(|d: Dep| d@) + kept_deps(
                es.take(i as int),
            ),
        decreases entries.len() - i,
    {
        let t = trim_chars(&entries[i]);
        let name = match split_once_exec(&t, &space) {
            Some((n, _)) => n,
            None => t,
        };
        assert(es[i as int] == entries@[i as int]@);
        assert(name@ == entry_name(es[i as int]));
        assert(es.take(i + 1).drop_last() =~= es.take(i as int));
        assert(es.take(i + 1).last() == es[i as int]);
        let ghost before = deps@;
        if name.len() > 0 && !is_listed(base, &name) {
            let d = Dep::new(string_of(&name), None);
            deps.push(d);
            assert(deps@.map_values(|d: Dep| d@) =~= before.map_values(|d: Dep| d@).push(
                (name@, None),
            ));
        }
        i += 1;
    }
    assert(es.take(entries.len() as int) =~= es);
}

/// Joins continuation lines (those starting with a space) onto the line
/// before them.
fn join_lines_exec(ls: &Vec<Vec<char>>) -> (r: Vec<char>)
    ensures
        r@ == join_lines(views(ls@)),
{
    let ghost v = views(ls@);
    let mut acc: Vec<char> = Vec::new();
    let mut i: usize = 0;
    while i < ls.len()
        invariant
            i <= ls.len(),
            v == views(ls@),
            acc@ == join_lines(v.take(i as int)),
        decreases ls.len() - i,
    {
        let line = &ls[i];
        assert(v[i as int] == line@);
        assert(v.take(i + 1).drop_last() =~= v.take(i as int));
        assert(v.take(i + 1).last() == line@);
        if line.len() > 0 && line[0] == ' ' {
            acc.push(' ');
            let t = trim_chars(line);
            extend_chars(&mut acc, &t);
        } else {
            if acc.len() > 0 {
                acc.push('\n');
            }
            extend_chars(&mut acc, line);
        }
        i += 1;
    }
    assert(v.take(ls.len() as int) =~= v);
    acc
}

/// The view of an optional character vector.
pub open spec fn opt_view(o: Option<Vec<char>>) -> Option<Seq<char>> {
    match o {
        Some(v) => Some(v@),
        None => None,
    }
}

/// The index entry that one block of the `PACKAGES` text gives.
fn parse_block(block: &Vec<char>, base: &Vec<Vec<char>>) -> (r: Option<(String, Package)>)
    requires
        views(base@) == base_packages(),
    ensures
        match r {
            Some((n, p)) => block_entry(block@) == Some((n@, p@)),
            None => block_entry(block@) is None,
        },
{
    let raw = lines_exec(block);
    let joined = join_lines_exec(&raw);
    let ls = lines_exec(&joined);
    let ghost v = views(ls@);
    let sep: Vec<char> = vec![':', ' '];
    assert(sep@ =~= seq![':', ' ']);
    let k_package = chars_of("Package");
    let k_version = chars_of("Version");
    let k_imports = chars_of("Imports");
    let k_depends = chars_of("Depends");
    let mut name: Option<Vec<char>> = None;
    let mut version: Option<Vec<char>> = None;
    let mut deps: Vec<Dep> = Vec::new();
    let mut i: usize = 0;
    while i < ls.len()
        invariant
            i <= ls.len(),
            v == views(ls@),
            v == lines(join_lines(lines(block@))),
            sep@ == seq![':', ' '],
            k_package@ == "Package"@,
            k_version@ == "Version"@,
            k_imports@ == "Imports"@,
            k_depends@ == "Depends"@,
            views(base@) == base_packages(),
            (opt_view(name), opt_view(version), deps@.map_values(|d: Dep| d@)) == read_fields(
                v.take(i as int),
            ),
        decreases ls.len() - i,
    {
        let line = &ls[i];
        assert(v[i as int] == line@);
        assert(v.take(i + 1).drop_last() =~= v.take(i as int));
        assert(v.take(i + 1).last() == line@);
        match split_once_exec(line, &sep) {
            Some((key, val)) => {
                if chars_eq(&key, &k_package) {
                    name = Some(val);
                } else if chars_eq(&key, &k_version) {
                    version = Some(val);
                } else if chars_eq(&key, &k_imports) || chars_eq(&key, &k_depends) {
                    push_field_deps(&val, base, &mut deps);
                }
            },
            None => {},
        }
        i += 1;
    }
    assert(v.take(ls.len() as int) =~= v);
    match (name, version) {
        (Some(n), Some(ver)) => {
            let p = Package { version: string_of(&ver), deps };
            Some((string_of(&n), p))
        },
        _ => None,
    }
}

/// Reads the `PACKAGES` text of a CRAN repository into an index from package
/// name to its version and dependencies. Constraints on dependencies are
/// dropped, and so are base packages.
pub fn parse_packages(text: &str) -> (r: NameMap<Package>)
    ensures
        index_view(r@) == packages_of(text@),
{
    let cs = chars_of(text);
    let blank: Vec<char> = vec!['\n', '\n'];
    assert(blank@ =~= seq!['\n', '\n']);
    let blocks = split_exec(&cs, &blank);
    let ghost bs = views(blocks@);
    let base = base_package_list();
    let mut index: NameMap<Package> = NameMap::new();
    assert(index_view(index@) =~= Map::empty());
    let mut i: usize = 0;
    while i < blocks.len()
        invariant
            i <= blocks.len(),
            bs == views(blocks@),
            bs == split(text@, seq!['\n', '\n']),
            views(base@) == base_packages(),
            index_view(index@) == index_of_blocks(bs.take(i as int)),
        decreases blocks.len() - i,
    {
        assert(bs[i as int] == blocks@[i as int]@);
        assert(bs.take(i + 1).drop_last() =~= bs.take(i as int));
        assert(bs.take(i + 1).last() == bs[i as int]);
        match parse_block(&blocks[i], &base) {
            Some((n, p)) => {
                let ghost before = index@;
                let ghost nv = n@;
                let ghost pv = p@;
                index.insert(n, p);
                assert(index_view(index@) =~= index_view(before).insert(nv, pv));
            },
            None => {},
        }
        i += 1;
    }
    assert(bs.take(blocks.len() as int) =~= bs);
    index
}

// ---------------------------------------------------------------------------
// The compressed index
// ---------------------------------------------------------------------------

/// The text that gzip data decompresses to, when it is a gzip stream of UTF-8
/// text.
pub uninterp spec fn gunzip_text(bytes: Seq<u8>) -> Option<Seq<char>>;

/// Decompresses gzip data into text with flate2's `GzDecoder`, read to the end
/// into a string. The result depends on the bytes alone and is named
/// `gunzip_text`; what that text is for given bytes is not stated.
#[verifier::external_body]
fn gunzip_to_string(bytes: &[u8]) -> (r: Option<String>)
    ensures
        match r {
            Some(t) => gunzip_text(bytes@) == Some(t@),
            None => gunzip_text(bytes@) is None,
        },
{
    let mut decoder = flate2::read::GzDecoder::new(bytes);
    let mut text = String::new();
    match std::io::Read::read_to_string(&mut decoder, &mut text) {
        Ok(_) => Some(text),
        Err(_) => None,
    }
}

/// Reads a gzip-compressed `PACKAGES` file into the package index; `None` when
/// the bytes are not gzip-compressed text.
pub fn decode_index(gz: &[u8]) -> (r: Option<NameMap<Package>>)
    ensures
        match gunzip_text(gz@) {
            Some(t) => r is Some && index_view(r.unwrap()@) == packages_of(t),
            None => r is None,
        },
{
    match gunzip_to_string(gz) {
        Some(t) => Some(parse_packages(t.as_str())),
        None => None,
    }
}

} // verus!
