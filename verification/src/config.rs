//! The project file `ruv.toml`: its data, the default file that `ruv init`
//! writes, the reading of dependency strings, and the editing of the
//! `[project]` table that adds a dependency while keeping the rest of the
//! text as it was.
use vstd::prelude::*;
use crate::text::{
    chars_eq, chars_of, ends_with, extend_chars, find_from, find_from_exec,
    lemma_find_from_bounds, lines, lines_exec, slice_of, starts_with, starts_with_exec,
    string_of, trim, trim_bounds, trim_chars, trim_start, views, is_ws, is_whitespace,
};

use crate::toml_text::{
    all_strings, entries_view, entry_texts, opt_text, read_string_array, toml_string_array,
};

verus! {

// ---------------------------------------------------------------------------
// Lines of a text
// ---------------------------------------------------------------------------

/// The spans `(start, end)` of the lines of `s[i..]`; a line's span takes in
/// the line feed that ends it.
pub open spec fn line_spans_from(s: Seq<char>, i: int) -> Seq<(int, int)>
    decreases s.len() - i,
{
    if i < 0 || i >= s.len() {
        seq![]
    } else {
        match find_from(s, seq!['\n'], i) {
            Some(j) => {
                proof {
                    lemma_find_from_bounds(s, seq!['\n'], i);
                }
                seq![(i, j + 1)] + line_spans_from(s, j + 1)
            },
            None => seq![(i, s.len() as int)],
        }
    }
}

/// The spans of the lines of `s`; an empty text has one empty line.
pub open spec fn line_spans(s: Seq<char>) -> Seq<(int, int)> {
    if s.len() == 0 {
        seq![(0, 0)]
    } else {
        line_spans_from(s, 0)
    }
}

/// The text of a span.
pub open spec fn span_text(s: Seq<char>, sp: (int, int)) -> Seq<char> {
    s.subrange(sp.0, sp.1)
}

/// The spans as integers.
pub open spec fn spans_view(v: Seq<(usize, usize)>) -> Seq<(int, int)> {
    v.map_values(|p: (usize, usize)| (p.0 as int, p.1 as int))
}

/// The spans of `s[i..]` lie in order inside `s[i..]`, each one ending where
/// the next begins, and the last one at the end of `s`.
proof fn lemma_spans_from_shape(s: Seq<char>, i: int)
    requires
        0 <= i < s.len(),
    ensures
        ({
            let sp = line_spans_from(s, i);
            &&& sp.len() >= 1
            &&& sp[0].0 == i
            &&& sp.last().1 == s.len()
            &&& forall|k: int| 0 <= k < sp.len() ==> i <= #[trigger] sp[k].0 < sp[k].1 <= s.len()
            &&& forall|k: int| 0 <= k < sp.len() - 1 ==> #[trigger] sp[k].1 == sp[k + 1].0
        }),
    decreases s.len() - i,
{
    lemma_find_from_bounds(s, seq!['\n'], i);
    match find_from(s, seq!['\n'], i) {
        Some(j) => {
            if j + 1 < s.len() {
                lemma_spans_from_shape(s, j + 1);
                let rest = line_spans_from(s, j + 1);
                let sp = line_spans_from(s, i);
                assert(sp =~= seq![(i, j + 1)] + rest);
                assert forall|k: int| 0 <= k < sp.len() implies i <= #[trigger] sp[k].0 < sp[k].1
                    <= s.len() by {
                    if k > 0 {
                        assert(sp[k] == rest[k - 1]);
                    }
                }
                assert forall|k: int| 0 <= k < sp.len() - 1 implies #[trigger] sp[k].1 == sp[k
                    + 1].0 by {
                    if k > 0 {
                        assert(sp[k] == rest[k - 1]);
                    }
                    assert(sp[k + 1] == rest[k]);
                }
            } else {
                assert(line_spans_from(s, j + 1) =~= seq![]);
                assert(line_spans_from(s, i) =~= seq![(i, j + 1)]);
            }
        },
        None => {},
    }
}

/// The spans of the lines of `s` lie in order inside `s`: a span that starts
/// before another ends no later than the other starts.
proof fn lemma_spans_ordered(s: Seq<char>)
    ensures
        ({
            let sp = line_spans(s);
            &&& sp.len() >= 1
            &&& forall|k: int| 0 <= k < sp.len() ==> 0 <= #[trigger] sp[k].0 <= sp[k].1 <= s.len()
            &&& forall|k: int, j: int| 0 <= k < j < sp.len() ==> #[trigger] sp[k].1 <= #[trigger] sp[j].0
        }),
{
    if s.len() > 0 {
        lemma_spans_from_shape(s, 0);
        let sp = line_spans(s);
        assert forall|k: int, j: int| 0 <= k < j < sp.len() implies #[trigger] sp[k].1
            <= #[trigger] sp[j].0 by {
            lemma_spans_chain(sp, k, j);
        }
    }
}

/// In a chain of spans where each ends where the next begins and none is
/// empty, an earlier span ends no later than a later one begins.
proof fn lemma_spans_chain(sp: Seq<(int, int)>, k: int, j: int)
    requires
        0 <= k < j < sp.len(),
        forall|m: int| 0 <= m < sp.len() ==> #[trigger] sp[m].0 < sp[m].1,
        forall|m: int| 0 <= m < sp.len() - 1 ==> #[trigger] sp[m].1 == sp[m + 1].0,
    ensures
        sp[k].1 <= sp[j].0,
    decreases j - k,
{
    if j > k + 1 {
        lemma_spans_chain(sp, k, j - 1);
        assert(sp[j - 1].1 == sp[j].0);
        assert(sp[j - 1].0 < sp[j - 1].1);
    } else {
        assert(sp[k].1 == sp[k + 1].0);
    }
}

/// The spans `(start, end)` of the lines of `s`.
fn line_spans_exec(s: &Vec<char>) -> (r: Vec<(usize, usize)>)
    ensures
        spans_view(r@) == line_spans(s@),
{
    let mut out: Vec<(usize, usize)> = Vec::new();
    if s.len() == 0 {
        out.push((0, 0));
        assert(spans_view(out@) =~= seq![(0int, 0int)]);
        return out;
    }
    let nl: Vec<char> = vec!['\n'];
    assert(nl@ =~= seq!['\n']);
    let mut start: usize = 0;
    while start < s.len()
        invariant
            start <= s.len(),
            s.len() > 0,
            nl@ == seq!['\n'],
            spans_view(out@) + line_spans_from(s@, start as int) == line_spans(s@),
        decreases s.len() - start,
    {
        let ghost before = out@;
        match find_from_exec(s, &nl, start) {
            Some(j) => {
                proof {
                    lemma_find_from_bounds(s@, seq!['\n'], start as int);
                }
                out.push((start, j + 1));
                assert(spans_view(out@) =~= spans_view(before).push((start as int, j + 1)));
                assert(spans_view(out@) + line_spans_from(s@, j + 1) =~= spans_view(before)
                    + line_spans_from(s@, start as int));
                start = j + 1;
            },
            None => {
                out.push((start, s.len()));
                assert(spans_view(out@) =~= spans_view(before) + line_spans_from(
                    s@,
                    start as int,
                ));
                assert(line_spans_from(s@, s.len() as int) =~= seq![]);
                start = s.len();
                assert(spans_view(out@) + line_spans_from(s@, start as int) =~= spans_view(out@));
            },
        }
    }
    assert(line_spans_from(s@, start as int) =~= seq![]);
    assert(spans_view(out@) =~= spans_view(out@) + line_spans_from(s@, start as int));
    out
}

// ---------------------------------------------------------------------------
// The [project] table
// ---------------------------------------------------------------------------

/// The line is the `[project]` header.
pub open spec fn is_project_header(s: Seq<char>, sp: (int, int)) -> bool {
    trim(span_text(s, sp)) == "[project]"@
}

/// The line is a table header: trimmed, it starts with `[` and ends with `]`.
pub open spec fn is_table_header(s: Seq<char>, sp: (int, int)) -> bool {
    let t = trim(span_text(s, sp));
    starts_with(t, seq!['[']) && ends_with(t, seq![']'])
}

/// The first line at or after `k` that is the `[project]` header.
pub open spec fn first_project_header(s: Seq<char>, sp: Seq<(int, int)>, k: int) -> Option<int>
    decreases sp.len() - k,
{
    if k < 0 || k >= sp.len() {
        None
    } else if is_project_header(s, sp[k]) {
        Some(k)
    } else {
        first_project_header(s, sp, k + 1)
    }
}

/// The first line at or after `k` that is a table header.
pub open spec fn first_table_header(s: Seq<char>, sp: Seq<(int, int)>, k: int) -> Option<int>
    decreases sp.len() - k,
{
    if k < 0 || k >= sp.len() {
        None
    } else if is_table_header(s, sp[k]) {
        Some(k)
    } else {
        first_table_header(s, sp, k + 1)
    }
}

/// The body of the `[project]` table: from the end of its header line to the
/// start of the next table header, or to the end of the text.
pub open spec fn project_body_range(s: Seq<char>) -> Option<(int, int)> {
    let sp = line_spans(s);
    match first_project_header(s, sp, 0) {
        Some(h) => Some(
            (
                sp[h].1,
                match first_table_header(s, sp, h + 1) {
                    Some(t) => sp[t].0,
                    None => s.len() as int,
                },
            ),
        ),
        None => None,
    }
}

proof fn lemma_first_project_header_bounds(s: Seq<char>, sp: Seq<(int, int)>, k: int)
    ensures
        first_project_header(s, sp, k) matches Some(h) ==> k <= h < sp.len(),
    decreases sp.len() - k,
{
    if 0 <= k < sp.len() && !is_project_header(s, sp[k]) {
        lemma_first_project_header_bounds(s, sp, k + 1);
    }
}

proof fn lemma_first_table_header_bounds(s: Seq<char>, sp: Seq<(int, int)>, k: int)
    ensures
        first_table_header(s, sp, k) matches Some(h) ==> k <= h < sp.len(),
    decreases sp.len() - k,
{
    if 0 <= k < sp.len() && !is_table_header(s, sp[k]) {
        lemma_first_table_header_bounds(s, sp, k + 1);
    }
}

/// The message for a project file without a `[project]` table.
pub open spec fn missing_project_message() -> Seq<char> {
    "invalid ruv.toml: missing [project] table"@
}

/// Whether the characters `t` start with `[` and end with `]`.
fn is_bracketed(t: &Vec<char>) -> (r: bool)
    ensures
        r == (starts_with(t@, seq!['[']) && ends_with(t@, seq![']'])),
{
    let open: Vec<char> = vec!['['];
    assert(open@ =~= seq!['[']);
    let a = starts_with_exec(t, &open);
    let n = t.len();
    let b = n >= 1 && t[n - 1] == ']';
    proof {
        if n >= 1 {
            if b {
                assert(t@.subrange(n - 1, n as int) =~= seq![']']);
            } else {
                assert(t@.subrange(n - 1, n as int)[0] == t@[n - 1]);
            }
        }
    }
    a && b
}

/// The body of the `[project]` table of the text `t`, as `(start, end)`.
fn find_project_body_range(t: &Vec<char>) -> (r: Result<(usize, usize), String>)
    ensures
        match r {
            Ok((a, b)) => project_body_range(t@) == Some((a as int, b as int)),
            Err(m) => project_body_range(t@) is None && m@ == missing_project_message(),
        },
{
    let spans = line_spans_exec(t);
    let ghost sp = line_spans(t@);
    proof {
        lemma_spans_ordered(t@);
    }
    let header = chars_of("[project]");
    let mut k: usize = 0;
    let mut header_end: Option<(usize, usize)> = None;
    while k < spans.len()
        invariant
            k <= spans.len(),
            spans_view(spans@) == sp,
            sp == line_spans(t@),
            header@ == "[project]"@,
            forall|m: int| 0 <= m < sp.len() ==> 0 <= #[trigger] sp[m].0 <= sp[m].1 <= t@.len(),
            match header_end {
                None => first_project_header(t@, sp, 0) == first_project_header(t@, sp, k as int),
                Some((h, e)) => first_project_header(t@, sp, 0) == Some(h as int) && e == sp[h as int].1
                    && h < k,
            },
            header_end is Some ==> k == spans.len(),
        decreases spans.len() - k,
    {
        let (a, b) = spans[k];
        assert(sp[k as int] == (a as int, b as int));
        let (x, y) = trim_bounds(t, a, b);
        let line = slice_of(t, x, y);
        if chars_eq(&line, &header) {
            header_end = Some((k, b));
            k = spans.len();
        } else {
            k += 1;
        }
    }
    match header_end {
        None => {
            let msg = chars_of("invalid ruv.toml: missing [project] table");
            Err(string_of(&msg))
        },
        Some((h, body_start)) => {
            proof {
                lemma_first_project_header_bounds(t@, sp, 0);
            }
            let mut j: usize = h + 1;
            let mut body_end: usize = t.len();
            let mut found = false;
            while j < spans.len()
                invariant
                    h < spans.len(),
                    h + 1 <= j <= spans.len(),
                    spans_view(spans@) == sp,
                    forall|m: int| 0 <= m < sp.len() ==> 0 <= #[trigger] sp[m].0 <= sp[m].1
                        <= t@.len(),
                    !found ==> first_table_header(t@, sp, h + 1) == first_table_header(
                        t@,
                        sp,
                        j as int,
                    ),
                    !found ==> body_end == t.len(),
                    found ==> j == spans.len() && (first_table_header(t@, sp, h + 1) matches Some(
                        m,
                    ) && body_end == sp[m].0),
                decreases spans.len() - j,
            {
                let (a, b) = spans[j];
                assert(sp[j as int] == (a as int, b as int));
                let (x, y) = trim_bounds(t, a, b);
                let line = slice_of(t, x, y);
                if is_bracketed(&line) {
                    body_end = a;
                    found = true;
                    j = spans.len();
                } else {
                    j += 1;
                }
            }
            Ok((body_start, body_end))
        },
    }
}

// ---------------------------------------------------------------------------
// Brackets
// ---------------------------------------------------------------------------

/// Scanning `s[i..limit]` for the bracket that closes the one opened before,
/// with `depth` brackets open, inside a string or not, and just after a
/// backslash in a string or not. Brackets inside strings do not count.
pub open spec fn bracket_scan(
    s: Seq<char>,
    i: int,
    limit: int,
    depth: nat,
    in_string: bool,
    escaped: bool,
) -> Option<int>
    decreases limit - i,
{
    if i >= limit {
        None
    } else {
        let c = s[i];
        if in_string {
            if escaped {
                bracket_scan(s, i + 1, limit, depth, true, false)
            } else if c == '\\' {
                bracket_scan(s, i + 1, limit, depth, true, true)
            } else if c == '"' {
                bracket_scan(s, i + 1, limit, depth, false, false)
            } else {
                bracket_scan(s, i + 1, limit, depth, true, false)
            }
        } else if c == '"' {
            bracket_scan(s, i + 1, limit, depth, true, escaped)
        } else if c == '[' {
            bracket_scan(s, i + 1, limit, depth + 1, false, escaped)
        } else if c == ']' {
            if depth == 0 {
                None
            } else if depth == 1 {
                Some(i)
            } else {
                bracket_scan(s, i + 1, limit, (depth - 1) as nat, false, escaped)
            }
        } else {
            bracket_scan(s, i + 1, limit, depth, false, escaped)
        }
    }
}

/// The index of the bracket that closes the one at `open`, before `limit`.
pub open spec fn matching_bracket(s: Seq<char>, open: int, limit: int) -> Option<int> {
    bracket_scan(s, open, limit, 0, false, false)
}

proof fn lemma_bracket_scan_bounds(
    s: Seq<char>,
    i: int,
    limit: int,
    depth: nat,
    in_string: bool,
    escaped: bool,
)
    ensures
        bracket_scan(s, i, limit, depth, in_string, escaped) matches Some(j) ==> i <= j < limit,
    decreases limit - i,
{
    if i < limit {
        let c = s[i];
        if in_string {
            if escaped {
                lemma_bracket_scan_bounds(s, i + 1, limit, depth, true, false);
            } else if c == '\\' {
                lemma_bracket_scan_bounds(s, i + 1, limit, depth, true, true);
            } else if c == '"' {
                lemma_bracket_scan_bounds(s, i + 1, limit, depth, false, false);
            } else {
                lemma_bracket_scan_bounds(s, i + 1, limit, depth, true, false);
            }
        } else if c == '"' {
            lemma_bracket_scan_bounds(s, i + 1, limit, depth, true, escaped);
        } else if c == '[' {
            lemma_bracket_scan_bounds(s, i + 1, limit, depth + 1, false, escaped);
        } else if c == ']' {
            if depth > 1 {
                lemma_bracket_scan_bounds(s, i + 1, limit, (depth - 1) as nat, false, escaped);
            }
        } else {
            lemma_bracket_scan_bounds(s, i + 1, limit, depth, false, escaped);
        }
    }
}

/// The index of the bracket that closes the one at `open`, before `limit`,
/// skipping brackets inside strings.
fn find_matching_bracket(t: &Vec<char>, open: usize, limit: usize) -> (r: Option<usize>)
    requires
        open <= limit <= t.len(),
    ensures
        match r {
            Some(j) => matching_bracket(t@, open as int, limit as int) == Some(j as int),
            None => matching_bracket(t@, open as int, limit as int) is None,
        },
{
    let mut depth: usize = 0;
    let mut in_string = false;
    let mut escaped = false;
    let mut i: usize = open;
    while i < limit
        invariant
            open <= i <= limit <= t.len(),
            depth <= i - open,
            matching_bracket(t@, open as int, limit as int) == bracket_scan(
                t@,
                i as int,
                limit as int,
                depth as nat,
                in_string,
                escaped,
            ),
        decreases limit - i,
    {
        let c = t[i];
        if in_string {
            if escaped {
                escaped = false;
            } else if c == '\\' {
                escaped = true;
            } else if c == '"' {
                in_string = false;
            }
        } else if c == '"' {
            in_string = true;
        } else if c == '[' {
            depth += 1;
        } else if c == ']' {
            if depth == 0 {
                return None;
            }
            depth -= 1;
            if depth == 0 {
                return Some(i);
            }
        }
        i += 1;
    }
    None
}

// ---------------------------------------------------------------------------
// The dependencies field
// ---------------------------------------------------------------------------

/// The key of the dependencies field.
pub open spec fn deps_key() -> Seq<char> {
    "dependencies"@
}

/// A line up to its first `#`.
pub open spec fn before_hash(line: Seq<char>) -> Seq<char> {
    match find_from(line, seq!['#'], 0) {
        Some(j) => line.take(j),
        None => line,
    }
}

/// What may follow the key: nothing, white space or `=`.
pub open spec fn key_ends(after: Seq<char>) -> bool {
    after.len() == 0 || is_ws(after[0]) || after[0] == '='
}

/// Where a dependencies array stands: the indices of its `[` and its `]`, and
/// the span of the white space before its key.
pub type FieldView = (int, int, int, int);

/// The dependencies array that the line at `sp` opens, when the line starts
/// inside `bs..be` and holds `dependencies = [...]` (outside a comment),
/// with the array closed before `be`.
pub open spec fn field_in_line(s: Seq<char>, sp: (int, int), bs: int, be: int) -> Option<
    FieldView,
> {
    if sp.0 < bs || sp.0 >= be {
        None
    } else {
        let nc = before_hash(span_text(s, sp));
        let t = trim_start(nc);
        if !starts_with(t, deps_key()) || !key_ends(t.skip(deps_key().len() as int)) {
            None
        } else {
            match find_from(nc, seq!['='], 0) {
                None => None,
                Some(e) => {
                    let eq_abs = sp.0 + e;
                    match find_from(s.subrange(eq_abs + 1, be), seq!['['], 0) {
                        None => None,
                        Some(b) => {
                            let open = eq_abs + 1 + b;
                            match matching_bracket(s, open, be) {
                                None => None,
                                Some(close) => Some((open, close, sp.0, sp.0 + (nc.len() - t.len()))),
                            }
                        },
                    }
                },
            }
        }
    }
}

/// The first dependencies array that a line at or after `k` opens.
pub open spec fn first_field(s: Seq<char>, sp: Seq<(int, int)>, k: int, bs: int, be: int) -> Option<
    FieldView,
>
    decreases sp.len() - k,
{
    if k < 0 || k >= sp.len() {
        None
    } else {
        match field_in_line(s, sp[k], bs, be) {
            Some(f) => Some(f),
            None => first_field(s, sp, k + 1, bs, be),
        }
    }
}

/// The dependencies array of the `[project]` body `bs..be`.
pub open spec fn dependencies_field(s: Seq<char>, bs: int, be: int) -> Option<FieldView> {
    first_field(s, line_spans(s), 0, bs, be)
}

/// The shape of a dependencies array inside the body `bs..be` of `s`.
pub open spec fn field_fits(s: Seq<char>, f: FieldView, be: int) -> bool {
    &&& 0 <= f.2 <= f.3 <= f.0 < f.1 < be <= s.len()
}

/// Where a dependencies array stands in the text.
#[derive(Clone, Copy)]
struct DependenciesField {
    open_bracket: usize,
    close_bracket: usize,
    key_indent_start: usize,
    key_indent_end: usize,
}

impl View for DependenciesField {
    type V = FieldView;

    closed spec fn view(&self) -> FieldView {
        (
            self.open_bracket as int,
            self.close_bracket as int,
            self.key_indent_start as int,
            self.key_indent_end as int,
        )
    }
}

/// A line that starts inside the `[project]` body ends inside it.
proof fn lemma_line_within_body(s: Seq<char>, k: int)
    requires
        project_body_range(s) is Some,
        0 <= k < line_spans(s).len(),
        line_spans(s)[k].0 < project_body_range(s).unwrap().1,
    ensures
        line_spans(s)[k].1 <= project_body_range(s).unwrap().1,
        project_body_range(s).unwrap().1 <= s.len(),
{
    let sp = line_spans(s);
    lemma_spans_ordered(s);
    let h = first_project_header(s, sp, 0).unwrap();
    lemma_first_project_header_bounds(s, sp, 0);
    lemma_first_table_header_bounds(s, sp, h + 1);
    match first_table_header(s, sp, h + 1) {
        Some(m) => {
            if k > m {
                assert(sp[m].1 <= sp[k].0);
            }
            if k < m {
                assert(sp[k].1 <= sp[m].0);
            }
        },
        None => {},
    }
}

/// The number of white-space characters that start `s`.
fn leading_ws_len(s: &Vec<char>) -> (r: usize)
    ensures
        r <= s.len(),
        s@.skip(r as int) == trim_start(s@),
        forall|k: int| 0 <= k < r ==> is_ws(#[trigger] s@[k]),
{
    let mut i: usize = 0;
    assert(s@.skip(0) =~= s@);
    while i < s.len() && is_whitespace(s[i])
        invariant
            i <= s.len(),
            trim_start(s@) == trim_start(s@.skip(i as int)),
            forall|k: int| 0 <= k < i ==> is_ws(#[trigger] s@[k]),
        decreases s.len() - i,
    {
        assert(s@.skip(i as int).drop_first() =~= s@.skip(i + 1));
        i += 1;
    }
    proof {
        lemma_trim_start_stops(s, i);
    }
    i
}

/// Once no white space starts `s[i..]`, trimming the start leaves it whole.
proof fn lemma_trim_start_stops(s: &Vec<char>, i: usize)
    requires
        i <= s.len(),
        i == s.len() || !is_ws(s@[i as int]),
    ensures
        trim_start(s@.skip(i as int)) == s@.skip(i as int),
{
    if i < s.len() {
        assert(s@.skip(i as int)[0] == s@[i as int]);
    }
}

/// The dependencies array that the line `t[a..b]` opens inside `bs..be`.
fn field_in_line_exec(t: &Vec<char>, a: usize, b: usize, bs: usize, be: usize) -> (r: Option<
    DependenciesField,
>)
    requires
        a <= b <= t.len(),
        be <= t.len(),
        a < be ==> b <= be,
    ensures
        match r {
            Some(f) => field_in_line(t@, (a as int, b as int), bs as int, be as int) == Some(f@)
                && field_fits(t@, f@, be as int) && t@[f@.0] == '[',
            None => field_in_line(t@, (a as int, b as int), bs as int, be as int) is None,
        },
{
    if a < bs || a >= be {
        return None;
    }
    let line = slice_of(t, a, b);
    let hash: Vec<char> = vec!['#'];
    assert(hash@ =~= seq!['#']);
    let nc = match find_from_exec(&line, &hash, 0) {
        Some(j) => {
            proof {
                lemma_find_from_bounds(line@, seq!['#'], 0);
            }
            slice_of(&line, 0, j)
        },
        None => line,
    };
    assert(nc@ == before_hash(span_text(t@, (a as int, b as int))));
    let w = leading_ws_len(&nc);
    let trimmed = slice_of(&nc, w, nc.len());
    assert(trimmed@ =~= nc@.skip(w as int));
    let key = chars_of("dependencies");
    if !starts_with_exec(&trimmed, &key) {
        return None;
    }
    let klen = key.len();
    let ends = trimmed.len() == klen || is_whitespace(trimmed[klen]) || trimmed[klen] == '=';
    proof {
        let after = trimmed@.skip(klen as int);
        if trimmed.len() > klen {
            assert(after[0] == trimmed@[klen as int]);
        }
    }
    if !ends {
        return None;
    }
    let eqv: Vec<char> = vec!['='];
    assert(eqv@ =~= seq!['=']);
    let e = match find_from_exec(&nc, &eqv, 0) {
        Some(e) => e,
        None => {
            return None;
        },
    };
    proof {
        lemma_find_from_bounds(nc@, seq!['='], 0);
        assert(nc@.subrange(e as int, e + 1)[0] == nc@[e as int]);
        assert(nc@[e as int] == '=');
        if e < w {
            assert(is_ws(nc@[e as int]));
        }
    }
    let eq_abs = a + e;
    let rest = slice_of(t, eq_abs + 1, be);
    let ob: Vec<char> = vec!['['];
    assert(ob@ =~= seq!['[']);
    let bb = match find_from_exec(&rest, &ob, 0) {
        Some(bb) => bb,
        None => {
            return None;
        },
    };
    proof {
        lemma_find_from_bounds(rest@, seq!['['], 0);
        assert(rest@.subrange(bb as int, bb + 1) == seq!['[']);
        assert(rest@[bb as int] == rest@.subrange(bb as int, bb + 1)[0]);
    }
    let open = eq_abs + 1 + bb;
    assert(rest@[bb as int] == t@[open as int]);
    assert(t@[open as int] == '[');
    assert(matching_bracket(t@, open as int, be as int) == bracket_scan(
        t@,
        open + 1,
        be as int,
        1,
        false,
        false,
    ));
    assert(trimmed@.len() == nc@.len() - w);
    match find_matching_bracket(t, open, be) {
        Some(close) => {
            proof {
                lemma_bracket_scan_bounds(t@, open + 1, be as int, 1, false, false);
                let f = (open as int, close as int, a as int, (a + w) as int);
                assert(field_fits(t@, f, be as int));
                assert(key_ends(trimmed@.skip(deps_key().len() as int)));
                assert(starts_with(trimmed@, deps_key()));
                assert(trim_start(nc@) == trimmed@);
                assert(field_in_line(t@, (a as int, b as int), bs as int, be as int) == Some(f));
            }
            Some(
                DependenciesField {
                    open_bracket: open,
                    close_bracket: close,
                    key_indent_start: a,
                    key_indent_end: a + w,
                },
            )
        },
        None => None,
    }
}

/// The dependencies array of the `[project]` body `bs..be` of `t`.
fn find_dependencies_field(t: &Vec<char>, bs: usize, be: usize) -> (r: Option<DependenciesField>)
    requires
        project_body_range(t@) == Some((bs as int, be as int)),
    ensures
        match r {
            Some(f) => dependencies_field(t@, bs as int, be as int) == Some(f@) && field_fits(
                t@,
                f@,
                be as int,
            ) && t@[f@.0] == '[',
            None => dependencies_field(t@, bs as int, be as int) is None,
        },
{
    let spans = line_spans_exec(t);
    let ghost sp = line_spans(t@);
    proof {
        lemma_spans_ordered(t@);
    }
    let mut k: usize = 0;
    while k < spans.len()
        invariant
            k <= spans.len(),
            spans_view(spans@) == sp,
            sp == line_spans(t@),
            project_body_range(t@) == Some((bs as int, be as int)),
            forall|m: int| 0 <= m < sp.len() ==> 0 <= #[trigger] sp[m].0 <= sp[m].1 <= t@.len(),
            dependencies_field(t@, bs as int, be as int) == first_field(
                t@,
                sp,
                k as int,
                bs as int,
                be as int,
            ),
        decreases spans.len() - k,
    {
        let (a, b) = spans[k];
        assert(sp[k as int] == (a as int, b as int));
        proof {
            if (a as int) < (be as int) {
                lemma_line_within_body(t@, k as int);
            }
            lemma_line_within_body_end(t@);
        }
        match field_in_line_exec(t, a, b, bs, be) {
            Some(f) => {
                return Some(f);
            },
            None => {},
        }
        k += 1;
    }
    None
}

/// The body of the `[project]` table ends inside the text.
proof fn lemma_line_within_body_end(s: Seq<char>)
    requires
        project_body_range(s) is Some,
    ensures
        project_body_range(s).unwrap().1 <= s.len(),
{
    let sp = line_spans(s);
    lemma_spans_ordered(s);
    let h = first_project_header(s, sp, 0).unwrap();
    lemma_first_project_header_bounds(s, sp, 0);
    lemma_first_table_header_bounds(s, sp, h + 1);
}

// ---------------------------------------------------------------------------
// Writing the dependencies array
// ---------------------------------------------------------------------------

/// The white space that starts a line.
pub open spec fn leading_ws(line: Seq<char>) -> Seq<char> {
    line.take(line.len() - trim_start(line).len())
}

/// The indentation of the first line at or after `k` that is not blank.
pub open spec fn first_indent(ls: Seq<Seq<char>>, k: int) -> Option<Seq<char>>
    decreases ls.len() - k,
{
    if k < 0 || k >= ls.len() {
        None
    } else if trim(ls[k]).len() == 0 {
        first_indent(ls, k + 1)
    } else {
        Some(leading_ws(ls[k]))
    }
}

/// The indentation of the items of the array between `open` and `close`: that
/// of its first line that is not blank.
pub open spec fn item_indent_of(s: Seq<char>, open: int, close: int) -> Option<Seq<char>> {
    first_indent(lines(s.subrange(open + 1, close)), 0)
}

/// Four spaces.
pub open spec fn four_spaces() -> Seq<char> {
    seq![' ', ' ', ' ', ' ']
}

/// A dependency in double quotes.
pub open spec fn quote(d: Seq<char>) -> Seq<char> {
    seq!['"'] + d + seq!['"']
}

/// One line per dependency: indented, quoted and followed by a comma.
pub open spec fn item_lines(deps: Seq<Seq<char>>, indent: Seq<char>) -> Seq<char>
    decreases deps.len(),
{
    if deps.len() == 0 {
        seq![]
    } else {
        item_lines(deps.drop_last(), indent) + indent + quote(deps.last()) + seq![',', '\n']
    }
}

/// The quoted dependencies separated by `, `.
pub open spec fn inline_items(deps: Seq<Seq<char>>) -> Seq<char>
    decreases deps.len(),
{
    if deps.len() == 0 {
        seq![]
    } else if deps.len() == 1 {
        quote(deps[0])
    } else {
        inline_items(deps.drop_last()) + seq![',', ' '] + quote(deps.last())
    }
}

/// A TOML array of the dependencies: one per line, or all on one line.
pub open spec fn render_array(
    deps: Seq<Seq<char>>,
    multiline: bool,
    key_indent: Seq<char>,
    item_indent: Seq<char>,
) -> Seq<char> {
    if multiline {
        seq!['[', '\n'] + item_lines(deps, item_indent) + key_indent + seq![']']
    } else {
        seq!['['] + inline_items(deps) + seq![']']
    }
}

/// The text with its dependencies array replaced by one that lists the
/// existing dependencies and then `dep`, one per line. The items keep the
/// indentation of the old array when it spanned lines, and are otherwise
/// indented four spaces past the key.
pub open spec fn rewritten(s: Seq<char>, f: FieldView, existing: Seq<Seq<char>>, dep: Seq<char>) -> Seq<
    char,
> {
    let key_indent = s.subrange(f.2, f.3);
    let default_indent = key_indent + four_spaces();
    let item_indent = if s.subrange(f.0, f.1 + 1).contains('\n') {
        match item_indent_of(s, f.0, f.1) {
            Some(i) => i,
            None => default_indent,
        }
    } else {
        default_indent
    };
    s.take(f.0) + render_array(existing.push(dep), true, key_indent, item_indent) + s.skip(f.1 + 1)
}

/// The indentation of the first line of the body `bs..be` that is not blank,
/// looking at the lines from `k` on.
pub open spec fn key_indent_from(s: Seq<char>, sp: Seq<(int, int)>, k: int, bs: int, be: int) -> Seq<
    char,
>
    decreases sp.len() - k,
{
    if k < 0 || k >= sp.len() {
        seq![]
    } else if sp[k].0 < bs || sp[k].0 >= be || trim(span_text(s, sp[k])).len() == 0 {
        key_indent_from(s, sp, k + 1, bs, be)
    } else {
        leading_ws(span_text(s, sp[k]))
    }
}

/// The indentation of the keys of the `[project]` body `bs..be`.
pub open spec fn project_key_indent(s: Seq<char>, bs: int, be: int) -> Seq<char> {
    key_indent_from(s, line_spans(s), 0, bs, be)
}

/// The text with a new dependencies field listing `dep` at the end of the
/// `[project]` body `bs..be`, after a blank line.
pub open spec fn with_new_field(s: Seq<char>, bs: int, be: int, dep: Seq<char>) -> Seq<char> {
    let ki = project_key_indent(s, bs, be);
    let ii = ki + four_spaces();
    let block = ki + "dependencies = [\n"@ + ii + quote(dep) + seq![',', '\n'] + ki + seq![
        ']',
        '\n',
    ];
    let head = s.take(be);
    let nl1: Seq<char> = if be > bs && !ends_with(head, seq!['\n']) {
        seq!['\n']
    } else {
        seq![]
    };
    let nl2: Seq<char> = if be > bs && !ends_with(head, seq!['\n', '\n']) {
        seq!['\n']
    } else {
        seq![]
    };
    head + nl1 + nl2 + block + s.skip(be)
}

/// The indentation of the first line of the array that is not blank.
fn infer_item_indent(t: &Vec<char>, open: usize, close: usize) -> (r: Option<Vec<char>>)
    requires
        open < close <= t.len(),
    ensures
        match r {
            Some(i) => item_indent_of(t@, open as int, close as int) == Some(i@),
            None => item_indent_of(t@, open as int, close as int) is None,
        },
{
    let inside = slice_of(t, open + 1, close);
    let ls = lines_exec(&inside);
    let ghost v = views(ls@);
    let mut k: usize = 0;
    while k < ls.len()
        invariant
            k <= ls.len(),
            v == views(ls@),
            item_indent_of(t@, open as int, close as int) == first_indent(v, k as int),
        decreases ls.len() - k,
    {
        let line = &ls[k];
        assert(v[k as int] == line@);
        let tr = trim_chars(line);
        if tr.len() > 0 {
            let w = leading_ws_len(line);
            let ind = slice_of(line, 0, w);
            assert(ind@ =~= leading_ws(line@));
            return Some(ind);
        }
        k += 1;
    }
    None
}

/// Appends `"dep"` to `out`.
fn push_quoted(out: &mut Vec<char>, dep: &Vec<char>)
    ensures
        final(out)@ == old(out)@ + quote(dep@),
{
    out.push('"');
    extend_chars(out, dep);
    out.push('"');
    assert(final(out)@ =~= old(out)@ + quote(dep@));
}

/// A TOML array of the dependencies: one per line, or all on one line.
fn render_dependencies_array(
    deps: &Vec<Vec<char>>,
    multiline: bool,
    key_indent: &Vec<char>,
    item_indent: &Vec<char>,
) -> (r: Vec<char>)
    ensures
        r@ == render_array(views(deps@), multiline, key_indent@, item_indent@),
{
    let ghost d = views(deps@);
    if multiline {
        let mut out: Vec<char> = vec!['[', '\n'];
        let mut i: usize = 0;
        while i < deps.len()
            invariant
                i <= deps.len(),
                d == views(deps@),
                out@ == seq!['[', '\n'] + item_lines(d.take(i as int), item_indent@),
            decreases deps.len() - i,
        {
            assert(d[i as int] == deps@[i as int]@);
            assert(d.take(i + 1).drop_last() =~= d.take(i as int));
            let ghost before = out@;
            extend_chars(&mut out, item_indent);
            push_quoted(&mut out, &deps[i]);
            out.push(',');
            out.push('\n');
            assert(out@ =~= seq!['[', '\n'] + item_lines(d.take(i + 1), item_indent@));
            i += 1;
        }
        assert(d.take(deps.len() as int) =~= d);
        extend_chars(&mut out, key_indent);
        out.push(']');
        assert(out@ =~= render_array(d, multiline, key_indent@, item_indent@));
        out
    } else {
        let mut out: Vec<char> = vec!['['];
        let mut i: usize = 0;
        while i < deps.len()
            invariant
                i <= deps.len(),
                d == views(deps@),
                out@ == seq!['['] + inline_items(d.take(i as int)),
            decreases deps.len() - i,
        {
            assert(d[i as int] == deps@[i as int]@);
            assert(d.take(i + 1).drop_last() =~= d.take(i as int));
            let ghost before = out@;
            if i > 0 {
                out.push(',');
                out.push(' ');
            }
            push_quoted(&mut out, &deps[i]);
            assert(out@ =~= seq!['['] + inline_items(d.take(i + 1)));
            i += 1;
        }
        assert(d.take(deps.len() as int) =~= d);
        out.push(']');
        assert(out@ =~= render_array(d, multiline, key_indent@, item_indent@));
        out
    }
}

/// Whether `s` holds a line feed.
fn has_newline(s: &Vec<char>) -> (r: bool)
    ensures
        r == s@.contains('\n'),
{
    let mut i: usize = 0;
    while i < s.len()
        invariant
            i <= s.len(),
            forall|k: int| 0 <= k < i ==> s@[k] != '\n',
        decreases s.len() - i,
    {
        if s[i] == '\n' {
            return true;
        }
        i += 1;
    }
    false
}

/// The text with its dependencies array replaced by one listing the
/// existing dependencies and then `dep`.
fn rewrite_existing_dependencies(
    t: &Vec<char>,
    field: DependenciesField,
    existing: &Vec<Vec<char>>,
    dep: &Vec<char>,
) -> (r: Vec<char>)
    requires
        field_fits(t@, field@, t.len() as int),
    ensures
        r@ == rewritten(t@, field@, views(existing@), dep@),
{
    let key_indent = slice_of(t, field.key_indent_start, field.key_indent_end);
    let current = slice_of(t, field.open_bracket, field.close_bracket + 1);
    let mut default_indent = slice_of(&key_indent, 0, key_indent.len());
    default_indent.push(' ');
    default_indent.push(' ');
    default_indent.push(' ');
    default_indent.push(' ');
    assert(default_indent@ =~= key_indent@ + four_spaces());
    let item_indent = if has_newline(&current) {
        match infer_item_indent(t, field.open_bracket, field.close_bracket) {
            Some(i) => i,
            None => default_indent,
        }
    } else {
        default_indent
    };
    let mut all: Vec<Vec<char>> = Vec::new();
    let mut i: usize = 0;
    while i < existing.len()
        invariant
            i <= existing.len(),
            views(all@) == views(existing@).take(i as int),
        decreases existing.len() - i,
    {
        let c = slice_of(&existing[i], 0, existing[i].len());
        let ghost before = all@;
        all.push(c);
        assert(c@ =~= existing@[i as int]@);
        assert(views(all@) =~= views(before).push(c@));
        assert(views(existing@).take(i + 1) =~= views(existing@).take(i as int).push(
            existing@[i as int]@,
        ));
        assert(views(all@) =~= views(existing@).take(i + 1));
        i += 1;
    }
    let d = slice_of(dep, 0, dep.len());
    let ghost before = all@;
    all.push(d);
    assert(d@ =~= dep@);
    assert(views(before) == views(existing@).take(i as int));
    assert(views(existing@).take(existing.len() as int) =~= views(existing@));
    assert(views(all@) =~= views(before).push(d@));
    assert(views(all@) =~= views(existing@).push(dep@));
    let replacement = render_dependencies_array(&all, true, &key_indent, &item_indent);
    let mut out = slice_of(t, 0, field.open_bracket);
    extend_chars(&mut out, &replacement);
    let tail = slice_of(t, field.close_bracket + 1, t.len());
    extend_chars(&mut out, &tail);
    assert(out@ =~= rewritten(t@, field@, views(existing@), dep@));
    out
}

/// The indentation of the keys of the `[project]` body `bs..be`.
fn infer_project_key_indent(t: &Vec<char>, bs: usize, be: usize) -> (r: Vec<char>)
    ensures
        r@ == project_key_indent(t@, bs as int, be as int),
{
    let spans = line_spans_exec(t);
    let ghost sp = line_spans(t@);
    proof {
        lemma_spans_ordered(t@);
    }
    let mut k: usize = 0;
    while k < spans.len()
        invariant
            k <= spans.len(),
            spans_view(spans@) == sp,
            sp == line_spans(t@),
            forall|m: int| 0 <= m < sp.len() ==> 0 <= #[trigger] sp[m].0 <= sp[m].1 <= t@.len(),
            project_key_indent(t@, bs as int, be as int) == key_indent_from(
                t@,
                sp,
                k as int,
                bs as int,
                be as int,
            ),
        decreases spans.len() - k,
    {
        let (a, b) = spans[k];
        assert(sp[k as int] == (a as int, b as int));
        if a >= bs && a < be {
            let line = slice_of(t, a, b);
            let tr = trim_chars(&line);
            if tr.len() > 0 {
                let w = leading_ws_len(&line);
                let ind = slice_of(&line, 0, w);
                assert(ind@ =~= leading_ws(line@));
                return ind;
            }
        }
        k += 1;
    }
    Vec::new()
}

/// The text with a new dependencies field listing `dep` at the end of the
/// `[project]` body `bs..be`.
fn insert_new_dependencies_field(t: &Vec<char>, bs: usize, be: usize, dep: &Vec<char>) -> (r: Vec<
    char,
>)
    requires
        be <= t.len(),
    ensures
        r@ == with_new_field(t@, bs as int, be as int, dep@),
{
    let key_indent = infer_project_key_indent(t, bs, be);
    let mut item_indent = slice_of(&key_indent, 0, key_indent.len());
    item_indent.push(' ');
    item_indent.push(' ');
    item_indent.push(' ');
    item_indent.push(' ');
    assert(item_indent@ =~= key_indent@ + four_spaces());
    let mut block = slice_of(&key_indent, 0, key_indent.len());
    let opening = chars_of("dependencies = [\n");
    extend_chars(&mut block, &opening);
    extend_chars(&mut block, &item_indent);
    push_quoted(&mut block, dep);
    block.push(',');
    block.push('\n');
    extend_chars(&mut block, &key_indent);
    block.push(']');
    block.push('\n');
    let head = slice_of(t, 0, be);
    let mut out = slice_of(t, 0, be);
    let ends1 = be >= 1 && t[be - 1] == '\n';
    let ends2 = be >= 2 && t[be - 2] == '\n' && t[be - 1] == '\n';
    proof {
        if be >= 1 {
            assert(head@.subrange(be - 1, be as int)[0] == t@[be - 1]);
            if ends1 {
                assert(head@.subrange(be - 1, be as int) =~= seq!['\n']);
            }
        }
        if be >= 2 {
            assert(head@.subrange(be - 2, be as int)[0] == t@[be - 2]);
            assert(head@.subrange(be - 2, be as int)[1] == t@[be - 1]);
            if ends2 {
                assert(head@.subrange(be - 2, be as int) =~= seq!['\n', '\n']);
            }
        }
    }
    let ghost h = out@;
    if be > bs && !ends1 {
        out.push('\n');
    }
    let ghost h1 = out@;
    if be > bs && !ends2 {
        out.push('\n');
    }
    extend_chars(&mut out, &block);
    let tail = slice_of(t, be, t.len());
    extend_chars(&mut out, &tail);
    assert(out@ =~= with_new_field(t@, bs as int, be as int, dep@));
    out
}

// ---------------------------------------------------------------------------
// Dependency strings
// ---------------------------------------------------------------------------

/// Whether `char::is_alphanumeric` holds of `c` (Unicode `Alphabetic` or
/// `Numeric`).
pub uninterp spec fn char_is_alphanumeric(c: char) -> bool;

/// std's `char::is_alphanumeric`. Its result is named `char_is_alphanumeric`;
/// of ASCII characters it holds exactly of the letters and digits, as std
/// documents. What it gives on other characters is not stated.
#[verifier::external_body]
fn is_alphanumeric(c: char) -> (r: bool)
    ensures
        r == char_is_alphanumeric(c),
        (c as u32) < 128 ==> (r <==> is_ascii_alnum(c)),
{
    c.is_alphanumeric()
}

/// An ASCII letter or digit.
pub open spec fn is_ascii_alnum(c: char) -> bool {
    ('0' <= c <= '9') || ('A' <= c <= 'Z') || ('a' <= c <= 'z')
}

/// Whether `char::is_alphanumeric` holds of `c`, spelled out for ASCII,
/// where it holds exactly of the letters and digits.
pub open spec fn alphanumeric(c: char) -> bool {
    if (c as u32) < 128 {
        is_ascii_alnum(c)
    } else {
        char_is_alphanumeric(c)
    }
}

/// A character that may stand in a package name: a letter or digit, `.` or
/// `-`.
pub open spec fn is_name_char(c: char) -> bool {
    alphanumeric(c) || c == '.' || c == '-'
}

/// The number of name characters that start `s`.
pub open spec fn name_len(s: Seq<char>) -> nat
    decreases s.len(),
{
    if s.len() > 0 && is_name_char(s[0]) {
        1 + name_len(s.drop_first())
    } else {
        0
    }
}

/// `c` is a parenthesis.
pub open spec fn is_paren(c: char) -> bool {
    c == '(' || c == ')'
}

/// `s` without leading parentheses.
pub open spec fn strip_parens_start(s: Seq<char>) -> Seq<char>
    decreases s.len(),
{
    if s.len() > 0 && is_paren(s[0]) {
        strip_parens_start(s.drop_first())
    } else {
        s
    }
}

/// `s` without trailing parentheses.
pub open spec fn strip_parens_end(s: Seq<char>) -> Seq<char>
    decreases s.len(),
{
    if s.len() > 0 && is_paren(s.last()) {
        strip_parens_end(s.drop_last())
    } else {
        s
    }
}

/// What `parse_dep` gives of "ggplot2", "ggplot2>=3.4" or "rlang (>= 1.0)":
/// the leading name characters are the name; the rest, trimmed and without
/// the parentheses at its ends, is read as a constraint.
pub open spec fn parse_dep_spec(s: Seq<char>) -> (Seq<char>, Option<(crate::version::Op, Seq<u32>)>) {
    let n = name_len(s);
    let rest = trim(s.skip(n as int));
    (s.take(n as int), crate::version::parse_req(strip_parens_end(strip_parens_start(rest))))
}

/// The package name of a dependency string.
pub open spec fn dep_name(s: Seq<char>) -> Seq<char> {
    s.take(name_len(s) as int)
}

/// The length of the name that starts `s`.
fn name_len_exec(s: &Vec<char>) -> (r: usize)
    ensures
        r == name_len(s@),
        r <= s.len(),
{
    let mut i: usize = 0;
    assert(s@.skip(0) =~= s@);
    while i < s.len() && (is_alphanumeric(s[i]) || s[i] == '.' || s[i] == '-')
        invariant
            i <= s.len(),
            name_len(s@) == i + name_len(s@.skip(i as int)),
        decreases s.len() - i,
    {
        assert(s@.skip(i as int).drop_first() =~= s@.skip(i + 1));
        assert(s@.skip(i as int)[0] == s@[i as int]);
        i += 1;
    }
    if i < s.len() {
        assert(s@.skip(i as int)[0] == s@[i as int]);
    }
    i
}

/// The bounds of `s` without parentheses at its ends.
fn strip_parens_exec(s: &Vec<char>) -> (r: Vec<char>)
    ensures
        r@ == strip_parens_end(strip_parens_start(s@)),
{
    let mut a: usize = 0;
    assert(s@.skip(0) =~= s@);
    while a < s.len() && (s[a] == '(' || s[a] == ')')
        invariant
            a <= s.len(),
            strip_parens_start(s@) == strip_parens_start(s@.skip(a as int)),
        decreases s.len() - a,
    {
        assert(s@.skip(a as int).drop_first() =~= s@.skip(a + 1));
        assert(s@.skip(a as int)[0] == s@[a as int]);
        a += 1;
    }
    if a < s.len() {
        assert(s@.skip(a as int)[0] == s@[a as int]);
    }
    assert(strip_parens_start(s@) == s@.skip(a as int));
    let mut b: usize = s.len();
    assert(s@.subrange(a as int, b as int) =~= s@.skip(a as int));
    while b > a && (s[b - 1] == '(' || s[b - 1] == ')')
        invariant
            a <= b <= s.len(),
            strip_parens_end(s@.skip(a as int)) == strip_parens_end(
                s@.subrange(a as int, b as int),
            ),
        decreases b - a,
    {
        assert(s@.subrange(a as int, b as int).drop_last() =~= s@.subrange(a as int, b - 1));
        b -= 1;
    }
    slice_of(s, a, b)
}

/// Reads a dependency string from `ruv.toml`: "ggplot2", "ggplot2>=3.4" or
/// "rlang (>= 1.0)".
pub fn parse_dep(s: &str) -> (r: crate::version::Dep)
    ensures
        r@ == parse_dep_spec(s@),
{
    let cs = chars_of(s);
    let n = name_len_exec(&cs);
    let name = slice_of(&cs, 0, n);
    let rest = slice_of(&cs, n, cs.len());
    assert(rest@ =~= cs@.skip(n as int));
    let trimmed = trim_chars(&rest);
    let inner = strip_parens_exec(&trimmed);
    let inner_s = string_of(&inner);
    let req = crate::version::VersionReq::parse(inner_s.as_str());
    assert(name@ =~= cs@.take(n as int));
    crate::version::Dep::new(string_of(&name), req)
}

/// The package name of a dependency string: "ggplot2>=3.4" gives "ggplot2".
pub fn parse_dep_name(dep: &str) -> (r: String)
    ensures
        r@ == dep_name(dep@),
{
    parse_dep(dep).name
}

// ---------------------------------------------------------------------------
// The project file
// ---------------------------------------------------------------------------

/// The contents of `ruv.toml`.
pub struct ArrrConfig {
    pub project: ProjectConfig,
}

/// The `[project]` table of `ruv.toml`.
pub struct ProjectConfig {
    pub name: String,
    pub version: String,
    pub dependencies: Vec<String>,
}

/// What adding a dependency to the project did.
#[derive(Debug, Clone, Copy, PartialEq, Eq, Structural)]
pub enum AddDependencyResult {
    Added,
    AlreadyPresent,
}

impl AddDependencyResult {
    /// `Added` when the dependency was added, `AlreadyPresent` when the
    /// project listed it already.
    pub fn from_added(added: bool) -> (r: Self)
        ensures
            r == (if added {
                AddDependencyResult::Added
            } else {
                AddDependencyResult::AlreadyPresent
            }),
    {
        if added {
            AddDependencyResult::Added
        } else {
            AddDependencyResult::AlreadyPresent
        }
    }
}

/// The text of a new `ruv.toml`.
pub open spec fn default_config(project_name: Seq<char>) -> Seq<char> {
    "[project]\nname = \""@ + project_name
        + "\"\nversion = \"0.1.0-alpha.1\"\nr-version = \">=4.3\"\ndependencies = []\n"@
}

/// The text of the `ruv.toml` that `ruv init` writes for a project.
pub fn default_config_toml(project_name: &str) -> (r: String)
    ensures
        r@ == default_config(project_name@),
{
    let mut out = chars_of("[project]\nname = \"");
    let name = chars_of(project_name);
    extend_chars(&mut out, &name);
    let tail = chars_of("\"\nversion = \"0.1.0-alpha.1\"\nr-version = \">=4.3\"\ndependencies = []\n");
    extend_chars(&mut out, &tail);
    string_of(&out)
}

/// The views of the strings of a list.
pub open spec fn string_views(v: Seq<String>) -> Seq<Seq<char>> {
    v.map_values(|s: String| s@)
}

/// Some listed dependency has the same package name as `dep`.
pub open spec fn names_listed(existing: Seq<Seq<char>>, dep: Seq<char>) -> bool {
    exists|i: int| 0 <= i < existing.len() && dep_name(#[trigger] existing[i]) == dep_name(dep)
}

/// Law: the package name of a dependency string is its longest prefix made of
/// letters, digits, `.` and `-`.
pub proof fn lemma_dep_name_longest(s: Seq<char>)
    ensures
        dep_name(s).len() <= s.len(),
        dep_name(s) == s.subrange(0, dep_name(s).len() as int),
        forall|k: int|
            0 <= k < dep_name(s).len() ==> (alphanumeric(#[trigger] s[k]) || s[k] == '.' || s[k]
                == '-'),
        dep_name(s).len() < s.len() ==> !(alphanumeric(s[dep_name(s).len() as int]) || s[dep_name(
            s,
        ).len() as int] == '.' || s[dep_name(s).len() as int] == '-'),
{
    lemma_name_len(s);
}

proof fn lemma_name_len(s: Seq<char>)
    ensures
        name_len(s) <= s.len(),
        forall|k: int| 0 <= k < name_len(s) ==> is_name_char(#[trigger] s[k]),
        name_len(s) < s.len() ==> !is_name_char(s[name_len(s) as int]),
    decreases s.len(),
{
    if s.len() > 0 && is_name_char(s[0]) {
        let t = s.drop_first();
        lemma_name_len(t);
        assert forall|k: int| 0 <= k < name_len(s) implies is_name_char(#[trigger] s[k]) by {
            if k > 0 {
                assert(s[k] == t[k - 1]);
            }
        }
        if name_len(s) < s.len() {
            assert(s[name_len(s) as int] == t[name_len(t) as int]);
        }
    }
}

/// The dependencies, each on a line of its own: indented by `ind`, quoted and
/// followed by a comma.
pub open spec fn quoted_lines(ds: Seq<Seq<char>>, ind: Seq<char>) -> Seq<char> {
    ds.map_values(|d: Seq<char>| ind + seq!['"'] + d + seq!['"', ',', '\n']).flatten()
}

/// The items rendered one per line are the lines of the dependencies, in
/// order, each indented, quoted and followed by a comma.
proof fn lemma_item_lines_flat(deps: Seq<Seq<char>>, indent: Seq<char>)
    ensures
        item_lines(deps, indent) == deps.map_values(
            |d: Seq<char>| indent + seq!['"'] + d + seq!['"', ',', '\n'],
        ).flatten(),
    decreases deps.len(),
{
    let m = deps.map_values(|d: Seq<char>| indent + seq!['"'] + d + seq!['"', ',', '\n']);
    m.lemma_flatten_and_flatten_alt_are_equivalent();
    if deps.len() > 0 {
        lemma_item_lines_flat(deps.drop_last(), indent);
        let m0 = deps.drop_last().map_values(
            |d: Seq<char>| indent + seq!['"'] + d + seq!['"', ',', '\n'],
        );
        m0.lemma_flatten_and_flatten_alt_are_equivalent();
        assert(m.drop_last() =~= m0);
        assert(m.last() == indent + seq!['"'] + deps.last() + seq!['"', ',', '\n']);
        assert(item_lines(deps, indent) =~= m0.flatten_alt() + m.last());
    } else {
        assert(m.flatten_alt() =~= Seq::<char>::empty());
    }
}

/// Law: adding to an existing dependencies array rewrites that array alone:
/// the text before its `[` and after its `]` stays as it was, and the new
/// array lists the existing dependencies and then `dep`, each quoted on a line
/// of its own, all with one indentation and followed by a comma, and closes
/// at the indentation of its key.
pub proof fn lemma_rewritten_lists_existing_then_dep(
    s: Seq<char>,
    f: FieldView,
    existing: Seq<Seq<char>>,
    dep: Seq<char>,
)
    ensures
        exists|ind: Seq<char>|
            rewritten(s, f, existing, dep) == s.take(f.0) + seq!['[', '\n'] + #[trigger] quoted_lines(
                existing.push(dep),
                ind,
            ) + s.subrange(f.2, f.3) + seq![']'] + s.skip(f.1 + 1),
{
    let key_indent = s.subrange(f.2, f.3);
    let default_indent = key_indent + four_spaces();
    let ind = if s.subrange(f.0, f.1 + 1).contains('\n') {
        match item_indent_of(s, f.0, f.1) {
            Some(i) => i,
            None => default_indent,
        }
    } else {
        default_indent
    };
    lemma_item_lines_flat(existing.push(dep), ind);
    let ds = existing.push(dep);
    assert(rewritten(s, f, existing, dep) =~= s.take(f.0) + seq!['[', '\n'] + quoted_lines(ds, ind)
        + key_indent + seq![']'] + s.skip(f.1 + 1));
}

/// Law: adding reports a dependency as already present exactly when a listed
/// dependency has the same package name, and then leaves the text as it was;
/// a dependency whose package name differs from every listed one is added,
/// unless the text has no `[project]` table.
pub proof fn lemma_add_dependency_by_name(text: Seq<char>, existing: Seq<Seq<char>>, dep: Seq<char>)
    ensures
        (exists|i: int| 0 <= i < existing.len() && dep_name(#[trigger] existing[i]) == dep_name(dep))
            ==> add_dependency_spec(text, existing, dep) == Ok::<(Seq<char>, bool), Seq<char>>(
            (text, false),
        ),
        (forall|i: int| 0 <= i < existing.len() ==> dep_name(#[trigger] existing[i]) != dep_name(dep))
            ==> match add_dependency_spec(text, existing, dep) {
            Ok((_, added)) => added,
            Err(m) => m == missing_project_message() && project_body_range(text) is None,
        },
{
}

/// What adding `dep` to the project file `text`, whose dependencies array
/// lists `existing`, gives: the text unchanged when a dependency of the same
/// name is listed; otherwise the text with `dep` added to the array, or with a
/// new array when the `[project]` table has none.
pub open spec fn add_dependency_spec(text: Seq<char>, existing: Seq<Seq<char>>, dep: Seq<char>) -> Result<
    (Seq<char>, bool),
    Seq<char>,
> {
    if names_listed(existing, dep) {
        Ok((text, false))
    } else {
        match project_body_range(text) {
            None => Err(missing_project_message()),
            Some((bs, be)) => match dependencies_field(text, bs, be) {
                Some(f) => Ok((rewritten(text, f, existing, dep), true)),
                None => Ok((with_new_field(text, bs, be, dep), true)),
            },
        }
    }
}

/// Adds the dependency string `dep` to the `[project]` table of the text of
/// `ruv.toml`, whose dependencies array holds `existing`. Gives the new text
/// and whether it changed; a dependency whose package is listed already is
/// not added again.
fn add_dependency_to_listed(text: &str, existing: &Vec<String>, dep: &str) -> (r: Result<
    (String, bool),
    String,
>)
    ensures
        match (r, add_dependency_spec(text@, string_views(existing@), dep@)) {
            (Ok((t, added)), Ok((t2, added2))) => t@ == t2 && added == added2,
            (Err(m), Err(m2)) => m@ == m2,
            _ => false,
        },
{
    let new_name = parse_dep_name(dep);
    let ghost ev = string_views(existing@);
    let mut i: usize = 0;
    while i < existing.len()
        invariant
            i <= existing.len(),
            ev == string_views(existing@),
            new_name@ == dep_name(dep@),
            forall|k: int| 0 <= k < i ==> dep_name(#[trigger] ev[k]) != dep_name(dep@),
        decreases existing.len() - i,
    {
        let n = parse_dep_name(existing[i].as_str());
        assert(ev[i as int] == existing@[i as int]@);
        if n == new_name {
            proof {
                assert(dep_name(ev[i as int]) == dep_name(dep@));
            }
            return Ok((text.to_owned(), false));
        }
        i += 1;
    }
    let t = chars_of(text);
    let (bs, be) = match find_project_body_range(&t) {
        Ok(r) => r,
        Err(m) => {
            return Err(m);
        },
    };
    proof {
        lemma_line_within_body_end(t@);
    }
    let d = chars_of(dep);
    let updated = match find_dependencies_field(&t, bs, be) {
        Some(field) => {
            let mut ex: Vec<Vec<char>> = Vec::new();
            let mut k: usize = 0;
            while k < existing.len()
                invariant
                    k <= existing.len(),
                    ev == string_views(existing@),
                    views(ex@) == ev.take(k as int),
                decreases existing.len() - k,
            {
                let c = chars_of(existing[k].as_str());
                let ghost before = ex@;
                ex.push(c);
                assert(views(ex@) =~= views(before).push(c@));
                assert(ev.take(k + 1) =~= ev.take(k as int).push(ev[k as int]));
                k += 1;
            }
            assert(ev.take(existing.len() as int) =~= ev);
            rewrite_existing_dependencies(&t, field, &ex, &d)
        },
        None => insert_new_dependencies_field(&t, bs, be, &d),
    };
    Ok((string_of(&updated), true))
}

// ---------------------------------------------------------------------------
// Adding a dependency to the text of `ruv.toml`
// ---------------------------------------------------------------------------

/// The message for a project file that is not TOML.
pub open spec fn parse_failure_message(m: Seq<char>) -> Seq<char> {
    "failed to parse ruv.toml: "@ + m
}

/// The message for a project file without a dependencies array.
pub open spec fn missing_array_message() -> Seq<char> {
    "invalid ruv.toml: missing [project].dependencies array"@
}

/// The message for a dependencies array with an entry that is not a string.
pub open spec fn non_string_message() -> Seq<char> {
    "invalid ruv.toml: dependencies entries must be strings"@
}

/// What adding `dep` to the project file `text` gives, where reading its
/// dependencies array gave `entries`.
pub open spec fn add_with_entries_spec(
    text: Seq<char>,
    entries: Result<Option<Seq<Option<Seq<char>>>>, Seq<char>>,
    dep: Seq<char>,
) -> Result<(Seq<char>, bool), Seq<char>> {
    match entries {
        Err(m) => Err(parse_failure_message(m)),
        Ok(None) => Err(missing_array_message()),
        Ok(Some(es)) => if all_strings(es) {
            add_dependency_spec(text, entry_texts(es), dep)
        } else {
            Err(non_string_message())
        },
    }
}

/// The view of the result of adding a dependency.
pub open spec fn added_view(r: Result<(String, bool), String>) -> Result<(Seq<char>, bool), Seq<char>> {
    match r {
        Ok((t, b)) => Ok((t@, b)),
        Err(m) => Err(m@),
    }
}

/// Adds `dep` to the project file `text`, where reading the dependencies
/// array of `text` gave `entries`: an error when the text was not TOML, has no
/// dependencies array or lists a value that is not a string; otherwise as
/// `add_dependency_spec` says for the listed strings.
pub fn add_dependency_given_entries(
    text: &str,
    entries: Result<Option<Vec<Option<String>>>, String>,
    dep: &str,
) -> (r: Result<(String, bool), String>)
    ensures
        added_view(r) == add_with_entries_spec(text@, entries_view(entries), dep@),
{
    let ghost ev = entries_view(entries);
    let list = match entries {
        Err(m) => {
            let mut out = chars_of("failed to parse ruv.toml: ");
            let mc = chars_of(m.as_str());
            extend_chars(&mut out, &mc);
            return Err(string_of(&out));
        },
        Ok(None) => {
            return Err(string_of(&chars_of("invalid ruv.toml: missing [project].dependencies array")));
        },
        Ok(Some(list)) => list,
    };
    let ghost es = list@.map_values(|e: Option<String>| opt_text(e));
    let mut existing: Vec<String> = Vec::new();
    let mut i: usize = 0;
    while i < list.len()
        invariant
            i <= list.len(),
            es == list@.map_values(|e: Option<String>| opt_text(e)),
            ev == Ok::<Option<Seq<Option<Seq<char>>>>, Seq<char>>(Some(es)),
            ev == entries_view(entries),
            forall|k: int| 0 <= k < i ==> (#[trigger] es[k]) is Some,
            string_views(existing@) == entry_texts(es.take(i as int)),
        decreases list.len() - i,
    {
        match &list[i] {
            Some(s) => {
                let ghost before = existing@;
                existing.push(s.clone());
                assert(string_views(existing@) =~= string_views(before).push(s@));
                assert(entry_texts(es.take(i + 1)) =~= entry_texts(es.take(i as int)).push(s@));
            },
            None => {
                assert(es[i as int] is None);
                assert(!all_strings(es));
                return Err(string_of(&chars_of("invalid ruv.toml: dependencies entries must be strings")));
            },
        }
        i += 1;
    }
    assert(es.take(list.len() as int) =~= es);
    add_dependency_to_listed(text, &existing, dep)
}

/// Adds the dependency string `dep` to the `[project]` table of the text of
/// `ruv.toml`. Gives the new text and whether it changed; a dependency whose
/// package is listed already is not added again. The dependencies array is
/// read with `toml`; the text itself is edited line by line so that its
/// layout and comments stay as they were.
pub fn add_dependency_to_toml_text(text: &str, dep: &str) -> (r: Result<(String, bool), String>)
    ensures
        added_view(r) == add_with_entries_spec(
            text@,
            toml_string_array(text@, "project"@, "dependencies"@),
            dep@,
        ),
{
    let entries = read_string_array(text, "project", "dependencies");
    add_dependency_given_entries(text, entries, dep)
}

/// Law: adding a dependency a second time changes nothing, once the
/// dependencies array of the text the first addition gave is read as the old
/// entries followed by the added dependency.
pub proof fn lemma_add_dependency_twice(
    text: Seq<char>,
    es: Seq<Option<Seq<char>>>,
    dep: Seq<char>,
    updated: Seq<char>,
)
    requires
        add_with_entries_spec(text, Ok(Some(es)), dep) == Ok::<(Seq<char>, bool), Seq<char>>(
            (updated, true),
        ),
    ensures
        add_with_entries_spec(updated, Ok(Some(es.push(Some(dep)))), dep) == Ok::<
            (Seq<char>, bool),
            Seq<char>,
        >((updated, false)),
{
    let es2 = es.push(Some(dep));
    assert(all_strings(es2)) by {
        assert forall|i: int| 0 <= i < es2.len() implies (#[trigger] es2[i]) is Some by {
            if i < es.len() {
                assert(es2[i] == es[i]);
            }
        }
    }
    let t = entry_texts(es2);
    assert(t[es.len() as int] == dep);
    assert(names_listed(t, dep));
}

} // verus!
