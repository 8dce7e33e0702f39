//! R package versions ("1.1.0", "4.5", "2.23-26"), version constraints
//! (">= 1.1.0") and dependencies (a package name with an optional constraint).
use vstd::prelude::*;
use vstd::std_specs::cmp::PartialEqSpecImpl;
use vstd::std_specs::cmp::PartialOrdSpecImpl;
use crate::name_map::Duplicate;
use crate::text::{chars_of, decimal_chars, decimal_text, extend_chars, join, slice_of, starts_with, string_of, trim, trim_chars};

verus! {

// ---------------------------------------------------------------------------
// Decimal numbers
// ---------------------------------------------------------------------------

/// An ASCII decimal digit.
pub open spec fn is_digit(c: char) -> bool {
    48 <= (c as u32) <= 57
}

/// The value of a decimal digit.
pub open spec fn digit_value(c: char) -> int {
    (c as u32) - 48
}

/// Every character of `s` is a decimal digit.
pub open spec fn all_digits(s: Seq<char>) -> bool {
    forall|i: int| 0 <= i < s.len() ==> is_digit(#[trigger] s[i])
}

/// The number that the decimal digits `s` write.
pub open spec fn decimal(s: Seq<char>) -> int
    decreases s.len(),
{
    if s.len() == 0 {
        0
    } else {
        decimal(s.drop_last()) * 10 + digit_value(s.last())
    }
}

/// `s` without one leading plus sign.
pub open spec fn unsigned_digits(s: Seq<char>) -> Seq<char> {
    if s.len() > 0 && s[0] == '+' {
        s.drop_first()
    } else {
        s
    }
}

/// What `str::parse::<u32>` gives: an optional `+` followed by at least one
/// decimal digit, and a value that fits in 32 bits.
pub open spec fn parse_u32(s: Seq<char>) -> Option<u32> {
    let d = unsigned_digits(s);
    if d.len() > 0 && all_digits(d) && decimal(d) <= u32::MAX {
        Some(decimal(d) as u32)
    } else {
        None
    }
}

/// The digits of a prefix write a number no larger than the whole.
pub proof fn lemma_decimal_prefix(s: Seq<char>, k: int)
    requires
        all_digits(s),
        0 <= k <= s.len(),
    ensures
        0 <= decimal(s.take(k)) <= decimal(s),
    decreases s.len(),
{
    if s.len() == 0 {
        assert(s.take(k) =~= s);
    } else if k == s.len() {
        assert(s.take(k) =~= s);
        lemma_decimal_prefix(s.drop_last(), k - 1);
        assert(all_digits(s.drop_last()));
        assert(is_digit(s[s.len() - 1]));
    } else {
        assert(all_digits(s.drop_last()));
        lemma_decimal_prefix(s.drop_last(), k);
        assert(s.drop_last().take(k) =~= s.take(k));
        lemma_decimal_prefix(s.drop_last(), s.len() - 1);
        assert(s.drop_last().take(s.len() - 1) =~= s.drop_last());
        assert(is_digit(s[s.len() - 1]));
    }
}

/// `str::parse::<u32>` on the characters of `s`.
pub fn parse_u32_exec(s: &Vec<char>) -> (r: Option<u32>)
    ensures
        r == parse_u32(s@),
{
    let start: usize = if s.len() > 0 && s[0] == '+' {
        1
    } else {
        0
    };
    let ghost d = unsigned_digits(s@);
    assert(d =~= s@.subrange(start as int, s.len() as int));
    if start == s.len() {
        return None;
    }
    let mut i: usize = start;
    while i < s.len()
        invariant
            start <= i <= s.len(),
            d =~= s@.subrange(start as int, s.len() as int),
            d == unsigned_digits(s@),
            forall|k: int| start <= k < i ==> is_digit(#[trigger] s@[k]),
        decreases s.len() - i,
    {
        let c = s[i];
        let u = c as u32;
        if u < 48 || u > 57 {
            assert(d[i - start] == c);
            assert(!is_digit(d[i - start]));
            assert(!all_digits(d));
            return None;
        }
        i += 1;
    }
    assert(all_digits(d)) by {
        assert forall|k: int| 0 <= k < d.len() implies is_digit(#[trigger] d[k]) by {
            assert(d[k] == s@[k + start]);
        }
    }
    let mut acc: u64 = 0;
    let mut i: usize = start;
    while i < s.len()
        invariant
            start <= i <= s.len(),
            d =~= s@.subrange(start as int, s.len() as int),
            d == unsigned_digits(s@),
            all_digits(d),
            acc == decimal(d.take(i - start)),
            acc <= u32::MAX,
        decreases s.len() - i,
    {
        let c = s[i];
        assert(d[i - start] == c);
        assert(is_digit(d[i - start]));
        let dv = (c as u32 - 48) as u64;
        assert(d.take(i - start + 1).drop_last() =~= d.take(i - start));
        assert(d.take(i - start + 1).last() == c);
        assert(decimal(d.take(i - start + 1)) == acc * 10 + dv);
        let next = acc * 10 + dv;
        if next > 0xffff_ffff {
            proof {
                lemma_decimal_prefix(d, i - start + 1);
            }
            return None;
        }
        acc = next;
        i += 1;
    }
    assert(d.take(d.len() as int) =~= d);
    Some(acc as u32)
}

// ---------------------------------------------------------------------------
// Versions
// ---------------------------------------------------------------------------

/// The characters that separate the parts of a version.
pub open spec fn is_version_sep(c: char) -> bool {
    c == '.' || c == '-'
}

/// The first separator at or after `i`.
pub open spec fn first_sep_from(s: Seq<char>, i: int) -> Option<int>
    decreases s.len() - i,
{
    if i < 0 || i >= s.len() {
        None
    } else if is_version_sep(s[i]) {
        Some(i)
    } else {
        first_sep_from(s, i + 1)
    }
}

/// A separator found by `first_sep_from` lies inside `s`, at or after `i`.
pub proof fn lemma_first_sep_bounds(s: Seq<char>, i: int)
    ensures
        first_sep_from(s, i) matches Some(j) ==> i <= j < s.len() && is_version_sep(s[j]),
    decreases s.len() - i,
{
    if i < 0 || i >= s.len() {
    } else if is_version_sep(s[i]) {
    } else {
        lemma_first_sep_bounds(s, i + 1);
    }
}

/// The pieces of `s[i..]` between separators (`str::split(['.', '-'])`).
pub open spec fn version_pieces_from(s: Seq<char>, i: int) -> Seq<Seq<char>>
    decreases s.len() + 1 - i,
{
    if i < 0 || i > s.len() {
        seq![]
    } else {
        match first_sep_from(s, i) {
            Some(j) => {
                proof {
                    lemma_first_sep_bounds(s, i);
                }
                seq![s.subrange(i, j)] + version_pieces_from(s, j + 1)
            },
            None => seq![s.subrange(i, s.len() as int)],
        }
    }
}

/// What `RVersion::parse` gives: the numbers between the `.` and `-`
/// separators, when every piece is a number.
pub open spec fn parse_version(s: Seq<char>) -> Option<Seq<u32>> {
    let p = version_pieces_from(s, 0);
    if forall|k: int| 0 <= k < p.len() ==> (#[trigger] parse_u32(p[k])) is Some {
        Some(Seq::new(p.len(), |k: int| parse_u32(p[k]).unwrap()))
    } else {
        None
    }
}

/// Part `i` of a version, where missing parts count as 0.
pub open spec fn part(p: Seq<u32>, i: int) -> int {
    if 0 <= i < p.len() {
        p[i] as int
    } else {
        0
    }
}

/// The order of `a` and `b` judged on parts `i..n`: -1, 0 or 1.
pub open spec fn order_upto(a: Seq<u32>, b: Seq<u32>, i: int, n: int) -> int
    decreases n - i,
{
    if i >= n {
        0
    } else if part(a, i) < part(b, i) {
        -1
    } else if part(a, i) > part(b, i) {
        1
    } else {
        order_upto(a, b, i + 1, n)
    }
}

/// The larger of two lengths.
pub open spec fn max_len(a: Seq<u32>, b: Seq<u32>) -> int {
    if a.len() >= b.len() {
        a.len() as int
    } else {
        b.len() as int
    }
}

/// The order of two versions: -1 when `a` comes first, 0 when they are equal
/// and 1 when `b` comes first. Parts are compared from the left, and a missing
/// part counts as 0.
pub open spec fn version_order(a: Seq<u32>, b: Seq<u32>) -> int {
    order_upto(a, b, 0, max_len(a, b))
}

/// Past both lengths, the order is decided.
proof fn lemma_order_tail(a: Seq<u32>, b: Seq<u32>, i: int, n: int)
    requires
        i >= a.len(),
        i >= b.len(),
    ensures
        order_upto(a, b, i, n) == 0,
    decreases n - i,
{
    if i < n {
        lemma_order_tail(a, b, i + 1, n);
    }
}

/// Any bound past both lengths gives the same order.
proof fn lemma_order_bound(a: Seq<u32>, b: Seq<u32>, i: int, n: int, m: int)
    requires
        n >= a.len(),
        n >= b.len(),
        m >= n,
    ensures
        order_upto(a, b, i, n) == order_upto(a, b, i, m),
    decreases n - i,
{
    if i >= n {
        if i >= 0 {
            lemma_order_tail(a, b, i, m);
        } else {
            lemma_order_tail(a, b, n, m);
            lemma_order_skip(a, b, i, n, m);
        }
    } else {
        lemma_order_bound(a, b, i + 1, n, m);
    }
}

/// Below zero there is nothing to compare until `n`.
proof fn lemma_order_skip(a: Seq<u32>, b: Seq<u32>, i: int, n: int, m: int)
    requires
        i >= n,
        n >= a.len(),
        n >= b.len(),
        m >= n,
        order_upto(a, b, n, m) == 0,
    ensures
        order_upto(a, b, i, m) == 0,
    decreases m - i,
{
    if i < m {
        if i + 1 >= n {
            lemma_order_tail(a, b, if i + 1 >= 0 { i + 1 } else { n }, m);
            if i + 1 < 0 {
                lemma_order_skip(a, b, i + 1, n, m);
            }
        } else {
            lemma_order_skip(a, b, i + 1, n, m);
        }
    }
}

/// The order of `a` and `b` judged on parts `i..n` is the reverse of the
/// order of `b` and `a`.
proof fn lemma_order_upto_flip(a: Seq<u32>, b: Seq<u32>, i: int, n: int)
    ensures
        order_upto(a, b, i, n) == -order_upto(b, a, i, n),
    decreases n - i,
{
    if i < n {
        lemma_order_upto_flip(a, b, i + 1, n);
    }
}

/// `order_upto` never leaves -1, 0, 1.
proof fn lemma_order_upto_range(a: Seq<u32>, b: Seq<u32>, i: int, n: int)
    ensures
        -1 <= order_upto(a, b, i, n) <= 1,
    decreases n - i,
{
    if i < n {
        lemma_order_upto_range(a, b, i + 1, n);
    }
}

/// Transitivity of `order_upto` under one bound.
proof fn lemma_order_upto_trans(a: Seq<u32>, b: Seq<u32>, c: Seq<u32>, i: int, n: int)
    ensures
        order_upto(a, b, i, n) <= 0 && order_upto(b, c, i, n) <= 0 ==> order_upto(a, c, i, n)
            <= 0,
        order_upto(a, b, i, n) < 0 && order_upto(b, c, i, n) <= 0 ==> order_upto(a, c, i, n)
            < 0,
        order_upto(a, b, i, n) <= 0 && order_upto(b, c, i, n) < 0 ==> order_upto(a, c, i, n)
            < 0,
        order_upto(a, b, i, n) == 0 && order_upto(b, c, i, n) == 0 ==> order_upto(a, c, i, n)
            == 0,
    decreases n - i,
{
    if i < n {
        lemma_order_upto_trans(a, b, c, i + 1, n);
    }
}

/// The order is 0 exactly when every part agrees on `i..n`.
proof fn lemma_order_upto_zero(a: Seq<u32>, b: Seq<u32>, i: int, n: int)
    ensures
        order_upto(a, b, i, n) == 0 <==> forall|k: int| i <= k < n ==> part(a, k) == part(b, k),
    decreases n - i,
{
    if i < n {
        lemma_order_upto_zero(a, b, i + 1, n);
        if order_upto(a, b, i, n) != 0 {
            if part(a, i) == part(b, i) {
                let k = choose|k: int| i + 1 <= k < n && part(a, k) != part(b, k);
                assert(i <= k < n);
            }
        }
    }
}

/// Law: exchanging the two versions reverses their order.
pub proof fn lemma_version_order_antisymmetric(a: Seq<u32>, b: Seq<u32>)
    ensures
        version_order(a, b) == -version_order(b, a),
        -1 <= version_order(a, b) <= 1,
{
    assert(max_len(a, b) == max_len(b, a));
    lemma_order_upto_flip(a, b, 0, max_len(a, b));
    lemma_order_upto_range(a, b, 0, max_len(a, b));
}

/// Law: the order of versions is transitive, both for "not after" and for
/// "strictly before", and equality of versions is transitive.
pub proof fn lemma_version_order_transitive(a: Seq<u32>, b: Seq<u32>, c: Seq<u32>)
    ensures
        version_order(a, b) <= 0 && version_order(b, c) <= 0 ==> version_order(a, c) <= 0,
        version_order(a, b) < 0 && version_order(b, c) <= 0 ==> version_order(a, c) < 0,
        version_order(a, b) <= 0 && version_order(b, c) < 0 ==> version_order(a, c) < 0,
        version_order(a, b) == 0 && version_order(b, c) == 0 ==> version_order(a, c) == 0,
{
    let n = if max_len(a, b) >= c.len() {
        max_len(a, b)
    } else {
        c.len() as int
    };
    lemma_order_bound(a, b, 0, max_len(a, b), n);
    lemma_order_bound(b, c, 0, max_len(b, c), n);
    lemma_order_bound(a, c, 0, max_len(a, c), n);
    lemma_order_upto_trans(a, b, c, 0, n);
}

/// Law: two versions are equal exactly when they agree on every part, where
/// a missing part counts as 0 (so "1.1" equals "1.1.0").
pub proof fn lemma_version_order_zero(a: Seq<u32>, b: Seq<u32>)
    ensures
        version_order(a, b) == 0 <==> forall|k: int| 0 <= k ==> part(a, k) == part(b, k),
{
    lemma_order_upto_zero(a, b, 0, max_len(a, b));
    if version_order(a, b) == 0 {
        assert forall|k: int| 0 <= k implies part(a, k) == part(b, k) by {
            if k >= max_len(a, b) {
            }
        }
    }
}

/// Law: every version equals itself.
pub proof fn lemma_version_order_reflexive(a: Seq<u32>)
    ensures
        version_order(a, a) == 0,
{
    lemma_version_order_zero(a, a);
}

/// An R package version, kept as its numeric parts.
#[derive(Debug, Clone)]
pub struct RVersion {
    pub parts: Vec<u32>,
}

impl View for RVersion {
    type V = Seq<u32>;

    open spec fn view(&self) -> Seq<u32> {
        self.parts@
    }
}

impl RVersion {
    /// Parses "1.1.0", "4.5" or "2.23-26": numbers separated by `.` or `-`.
    pub fn parse(s: &str) -> (r: Option<Self>)
        ensures
            match r {
                Some(v) => parse_version(s@) == Some(v@),
                None => parse_version(s@) is None,
            },
    {
        let cs = chars_of(s);
        let ghost whole = version_pieces_from(cs@, 0);
        let mut parts: Vec<u32> = Vec::new();
        let mut start: usize = 0;
        let ghost mut done: Seq<Seq<char>> = seq![];
        loop
            invariant
                start <= cs.len(),
                cs@ == s@,
                whole == version_pieces_from(cs@, 0),
                done + version_pieces_from(cs@, start as int) == whole,
                parts@.len() == done.len(),
                forall|k: int| 0 <= k < done.len() ==> parse_u32(done[k]) == Some(parts@[k]),
            decreases cs.len() + 1 - start,
        {
            let mut j: usize = start;
            while j < cs.len() && cs[j] != '.' && cs[j] != '-'
                invariant
                    start <= j <= cs.len(),
                    first_sep_from(cs@, start as int) == first_sep_from(cs@, j as int),
                decreases cs.len() - j,
            {
                j += 1;
            }
            proof {
                lemma_first_sep_bounds(cs@, start as int);
            }
            let piece = slice_of(&cs, start, j);
            let ghost rest = version_pieces_from(cs@, start as int);
            assert(rest[0] == piece@);
            match parse_u32_exec(&piece) {
                None => {
                    assert(whole[done.len() as int] == piece@);
                    return None;
                },
                Some(n) => {
                    parts.push(n);
                    proof {
                        done = done.push(piece@);
                    }
                },
            }
            if j == cs.len() {
                assert(rest =~= seq![piece@]);
                assert(whole =~= done);
                let r = RVersion { parts };
                assert(r@ =~= Seq::new(whole.len(), |k: int| parse_u32(whole[k]).unwrap()));
                return Some(r);
            }
            assert(rest =~= seq![piece@] + version_pieces_from(cs@, j + 1));
            start = j + 1;
        }
    }

    /// The lowest version, "0".
    pub fn minimum() -> (r: Self)
        ensures
            r@ == seq![0u32],
    {
        RVersion { parts: vec![0] }
    }

    /// The order of this version and `other`: -1 when this one comes first,
    /// 0 when they are equal and 1 when `other` comes first.
    pub fn order(&self, other: &Self) -> (r: i8)
        ensures
            r as int == version_order(self@, other@),
    {
        let n = if self.parts.len() >= other.parts.len() {
            self.parts.len()
        } else {
            other.parts.len()
        };
        let mut i: usize = 0;
        while i < n
            invariant
                i <= n,
                n == max_len(self@, other@),
                version_order(self@, other@) == order_upto(self@, other@, i as int, n as int),
            decreases n - i,
        {
            let a: u32 = if i < self.parts.len() {
                self.parts[i]
            } else {
                0
            };
            let b: u32 = if i < other.parts.len() {
                other.parts[i]
            } else {
                0
            };
            if a < b {
                return -1;
            } else if a > b {
                return 1;
            }
            i += 1;
        }
        0
    }
}

impl Duplicate for RVersion {
    fn duplicate(&self) -> (r: Self) {
        let mut parts: Vec<u32> = Vec::new();
        let mut i: usize = 0;
        while i < self.parts.len()
            invariant
                i <= self.parts.len(),
                parts@ == self.parts@.take(i as int),
            decreases self.parts.len() - i,
        {
            parts.push(self.parts[i]);
            i += 1;
            assert(parts@ =~= self.parts@.take(i as int));
        }
        assert(self.parts@.take(i as int) =~= self.parts@);
        RVersion { parts }
    }
}

/// The text of a version: its parts in decimal, joined by `.`.
pub open spec fn version_text(v: Seq<u32>) -> Seq<char> {
    join(v.map_values(|p: u32| decimal_text(p as nat)), seq!['.'])
}

impl RVersion {
    /// The text of this version: its parts joined by `.` ("2.23-26" gives
    /// "2.23.26").
    pub fn to_version_string(&self) -> (r: String)
        ensures
            r@ == version_text(self@),
    {
        let ghost t = self@.map_values(|p: u32| decimal_text(p as nat));
        let mut out: Vec<char> = Vec::new();
        let mut i: usize = 0;
        while i < self.parts.len()
            invariant
                i <= self.parts.len(),
                t == self@.map_values(|p: u32| decimal_text(p as nat)),
                out@ == join(t.take(i as int), seq!['.']),
            decreases self.parts.len() - i,
        {
            assert(t.take(i + 1).drop_last() =~= t.take(i as int));
            if i > 0 {
                out.push('.');
            }
            let d = decimal_chars(self.parts[i] as u64);
            extend_chars(&mut out, &d);
            proof {
                if i == 0 {
                    assert(t.take(1) =~= seq![t[0]]);
                }
            }
            assert(out@ =~= join(t.take(i + 1), seq!['.']));
            i += 1;
        }
        assert(t.take(self.parts.len() as int) =~= t);
        string_of(&out)
    }
}

/// The decimal text of a number is digits that write that number.
proof fn lemma_decimal_text(n: nat)
    ensures
        decimal_text(n).len() > 0,
        all_digits(decimal_text(n)),
        decimal(decimal_text(n)) == n,
    decreases n,
{
    if n < 10 {
        let t = decimal_text(n);
        assert(t.drop_last() =~= Seq::<char>::empty());
        assert((((n + 48) as char) as u32) == n + 48);
        assert(digit_value(t.last()) == n);
        assert(decimal(t.drop_last()) == 0);
        assert(decimal(t) == decimal(t.drop_last()) * 10 + digit_value(t.last()));
    } else {
        lemma_decimal_text(n / 10);
        let t = decimal_text(n);
        let c = ((n % 10) + 48) as char;
        assert(t == decimal_text(n / 10).push(c));
        assert(t.drop_last() =~= decimal_text(n / 10));
        assert((c as u32) == (n % 10) + 48);
        assert(digit_value(t.last()) == n % 10);
        assert((n / 10) * 10 + n % 10 == n) by (nonlinear_arith);
        assert(t.last() == c);
        assert(decimal(t) == decimal(t.drop_last()) * 10 + digit_value(t.last()));
        assert(decimal(t) == (n / 10) * 10 + n % 10);
        assert forall|i: int| 0 <= i < t.len() implies is_digit(#[trigger] t[i]) by {
            if i < t.len() - 1 {
                assert(t[i] == decimal_text(n / 10)[i]);
            }
        }
    }
}

/// A text without separators is a single piece.
proof fn lemma_no_sep_from(s: Seq<char>, i: int)
    requires
        0 <= i <= s.len(),
        forall|k: int| i <= k < s.len() ==> !is_version_sep(#[trigger] s[k]),
    ensures
        first_sep_from(s, i) is None,
    decreases s.len() - i,
{
    if i < s.len() {
        lemma_no_sep_from(s, i + 1);
    }
}

/// Looking for a separator in `s + t` finds the one in `s`, if any, and
/// otherwise looks on in `t`.
proof fn lemma_first_sep_concat(s: Seq<char>, t: Seq<char>, i: int)
    requires
        0 <= i <= s.len(),
    ensures
        first_sep_from(s + t, i) == match first_sep_from(s, i) {
            Some(j) => Some(j),
            None => first_sep_from(s + t, s.len() as int),
        },
    decreases s.len() - i,
{
    if i < s.len() {
        assert((s + t)[i] == s[i]);
        lemma_first_sep_concat(s, t, i + 1);
    }
}

/// Appending a separator and a piece without separators appends that piece.
proof fn lemma_pieces_append(s: Seq<char>, x: Seq<char>, i: int)
    requires
        0 <= i <= s.len(),
        forall|k: int| 0 <= k < x.len() ==> !is_version_sep(#[trigger] x[k]),
    ensures
        version_pieces_from(s + seq!['.'] + x, i) == version_pieces_from(s, i).push(x),
    decreases s.len() - i,
{
    let big = s + seq!['.'] + x;
    assert(big =~= s + (seq!['.'] + x));
    lemma_first_sep_concat(s, seq!['.'] + x, i);
    lemma_first_sep_bounds(s, i);
    match first_sep_from(s, i) {
        Some(j) => {
            assert(big.subrange(i, j) =~= s.subrange(i, j));
            lemma_pieces_append(s, x, j + 1);
            assert(version_pieces_from(s, i) =~= seq![s.subrange(i, j)] + version_pieces_from(
                s,
                j + 1,
            ));
            assert(version_pieces_from(big, i) =~= seq![s.subrange(i, j)] + version_pieces_from(
                big,
                j + 1,
            ));
        },
        None => {
            assert(big[s.len() as int] == '.');
            assert(first_sep_from(big, s.len() as int) == Some(s.len() as int));
            assert(big.subrange(i, s.len() as int) =~= s.subrange(i, s.len() as int));
            assert forall|k: int| s.len() + 1 <= k < big.len() implies !is_version_sep(
                #[trigger] big[k],
            ) by {
                assert(big[k] == x[k - s.len() - 1]);
            }
            lemma_no_sep_from(big, (s.len() + 1) as int);
            assert(big.subrange((s.len() + 1) as int, big.len() as int) =~= x);
            assert(version_pieces_from(big, (s.len() + 1) as int) =~= seq![x]);
            assert(version_pieces_from(s, i) =~= seq![s.subrange(i, s.len() as int)]);
        },
    }
}

/// The pieces of the text of a version are the decimal texts of its parts.
proof fn lemma_version_text_pieces(p: Seq<u32>)
    requires
        p.len() > 0,
    ensures
        version_pieces_from(version_text(p), 0) == p.map_values(|n: u32| decimal_text(n as nat)),
    decreases p.len(),
{
    let t = p.map_values(|n: u32| decimal_text(n as nat));
    lemma_decimal_text(p.last() as nat);
    let x = decimal_text(p.last() as nat);
    assert forall|k: int| 0 <= k < x.len() implies !is_version_sep(#[trigger] x[k]) by {
        assert(is_digit(x[k]));
    }
    if p.len() == 1 {
        assert(version_text(p) == x);
        lemma_no_sep_from(x, 0);
        assert(x.subrange(0, x.len() as int) =~= x);
        assert(t =~= seq![x]);
    } else {
        let q = p.drop_last();
        lemma_version_text_pieces(q);
        assert(t.drop_last() =~= q.map_values(|n: u32| decimal_text(n as nat)));
        assert(version_text(p) == version_text(q) + seq!['.'] + x);
        lemma_pieces_append(version_text(q), x, 0);
        assert(t =~= t.drop_last().push(x));
    }
}

/// Law: reading the text of a version gives the version back.
pub proof fn lemma_version_text_roundtrip(p: Seq<u32>)
    requires
        p.len() > 0,
    ensures
        parse_version(version_text(p)) == Some(p),
{
    lemma_version_text_pieces(p);
    let pieces = version_pieces_from(version_text(p), 0);
    assert forall|k: int| 0 <= k < pieces.len() implies #[trigger] parse_u32(pieces[k]) == Some(
        p[k],
    ) by {
        lemma_decimal_text(p[k] as nat);
        let d = decimal_text(p[k] as nat);
        assert(pieces[k] == d);
        assert(is_digit(d[0]));
        assert(unsigned_digits(d) == d);
    }
    assert(Seq::new(pieces.len(), |k: int| parse_u32(pieces[k]).unwrap()) =~= p);
}

impl PartialEq for RVersion {
    fn eq(&self, other: &Self) -> (r: bool) {
        self.order(other) == 0
    }
}

impl Eq for RVersion {

}

impl PartialEqSpecImpl for RVersion {
    open spec fn obeys_eq_spec() -> bool {
        true
    }

    open spec fn eq_spec(&self, other: &RVersion) -> bool {
        version_order(self@, other@) == 0
    }
}

impl PartialOrd for RVersion {
    fn partial_cmp(&self, other: &Self) -> (r: Option<std::cmp::Ordering>) {
        let o = self.order(other);
        if o < 0 {
            Some(std::cmp::Ordering::Less)
        } else if o == 0 {
            Some(std::cmp::Ordering::Equal)
        } else {
            Some(std::cmp::Ordering::Greater)
        }
    }
}

impl PartialOrdSpecImpl for RVersion {
    open spec fn obeys_partial_cmp_spec() -> bool {
        true
    }

    open spec fn partial_cmp_spec(&self, other: &RVersion) -> Option<std::cmp::Ordering> {
        let o = version_order(self@, other@);
        if o < 0 {
            Some(std::cmp::Ordering::Less)
        } else if o == 0 {
            Some(std::cmp::Ordering::Equal)
        } else {
            Some(std::cmp::Ordering::Greater)
        }
    }
}

// ---------------------------------------------------------------------------
// Constraints
// ---------------------------------------------------------------------------

/// The comparison of a version constraint.
#[derive(Debug, Clone, Copy, PartialEq, Eq, Structural)]
pub enum Op {
    Gte,
    Gt,
    Lte,
    Lt,
    Eq,
}

/// Whether version `v` meets the constraint `op req`.
pub open spec fn op_holds(op: Op, req: Seq<u32>, v: Seq<u32>) -> bool {
    let o = version_order(v, req);
    match op {
        Op::Gte => o >= 0,
        Op::Gt => o > 0,
        Op::Lte => o <= 0,
        Op::Lt => o < 0,
        Op::Eq => o == 0,
    }
}

/// Law: each constraint operator is the opposite of another: `>=` of `<`
/// and `<=` of `>`, and `==` holds exactly when both `>=` and `<=` do.
pub proof fn lemma_op_complements(req: Seq<u32>, v: Seq<u32>)
    ensures
        op_holds(Op::Gte, req, v) <==> !op_holds(Op::Lt, req, v),
        op_holds(Op::Lte, req, v) <==> !op_holds(Op::Gt, req, v),
        op_holds(Op::Eq, req, v) <==> (op_holds(Op::Gte, req, v) && op_holds(Op::Lte, req, v)),
{
}

/// The operators that `VersionReq::parse` knows, each with the number of
/// characters it takes, tried in this order.
pub open spec fn parse_op(t: Seq<char>) -> Option<(Op, int)> {
    if starts_with(t, seq!['>', '=']) {
        Some((Op::Gte, 2))
    } else if starts_with(t, seq!['>']) {
        Some((Op::Gt, 1))
    } else if starts_with(t, seq!['<', '=']) {
        Some((Op::Lte, 2))
    } else if starts_with(t, seq!['<']) {
        Some((Op::Lt, 1))
    } else if starts_with(t, seq!['=', '=']) {
        Some((Op::Eq, 2))
    } else if starts_with(t, seq!['=']) {
        Some((Op::Eq, 1))
    } else {
        None
    }
}

/// What `VersionReq::parse` gives: after trimming, an operator and then a
/// version (trimmed again).
pub open spec fn parse_req(s: Seq<char>) -> Option<(Op, Seq<u32>)> {
    let t = trim(s);
    match parse_op(t) {
        Some((op, n)) => match parse_version(trim(t.skip(n))) {
            Some(v) => Some((op, v)),
            None => None,
        },
        None => None,
    }
}

/// A version constraint: ">= 1.1.0".
#[derive(Debug, Clone)]
pub struct VersionReq {
    pub op: Op,
    pub version: RVersion,
}

impl View for VersionReq {
    type V = (Op, Seq<u32>);

    open spec fn view(&self) -> (Op, Seq<u32>) {
        (self.op, self.version@)
    }
}

/// The view of an optional constraint.
pub open spec fn req_view(r: Option<VersionReq>) -> Option<(Op, Seq<u32>)> {
    match r {
        Some(q) => Some(q@),
        None => None,
    }
}

/// Whether the character vector `t` begins with the two characters `a`, `b`.
fn starts_with2(t: &Vec<char>, a: char, b: char) -> (r: bool)
    ensures
        r == starts_with(t@, seq![a, b]),
{
    let r = t.len() >= 2 && t[0] == a && t[1] == b;
    if r {
        assert(t@.subrange(0, 2) =~= seq![a, b]);
    } else if t.len() >= 2 {
        assert(t@.subrange(0, 2)[0] == t@[0]);
        assert(t@.subrange(0, 2)[1] == t@[1]);
    }
    r
}

/// Whether the character vector `t` begins with `a`.
fn starts_with1(t: &Vec<char>, a: char) -> (r: bool)
    ensures
        r == starts_with(t@, seq![a]),
{
    let r = t.len() >= 1 && t[0] == a;
    if r {
        assert(t@.subrange(0, 1) =~= seq![a]);
    } else if t.len() >= 1 {
        assert(t@.subrange(0, 1)[0] == t@[0]);
    }
    r
}

impl VersionReq {
    /// Parses the interior of parentheses, e.g. ">= 1.1.0".
    pub fn parse(s: &str) -> (r: Option<Self>)
        ensures
            req_view(r) == parse_req(s@),
    {
        let cs = chars_of(s);
        let t = trim_chars(&cs);
        let (op, n): (Op, usize) = if starts_with2(&t, '>', '=') {
            (Op::Gte, 2)
        } else if starts_with1(&t, '>') {
            (Op::Gt, 1)
        } else if starts_with2(&t, '<', '=') {
            (Op::Lte, 2)
        } else if starts_with1(&t, '<') {
            (Op::Lt, 1)
        } else if starts_with2(&t, '=', '=') {
            (Op::Eq, 2)
        } else if starts_with1(&t, '=') {
            (Op::Eq, 1)
        } else {
            return None;
        };
        let rest = slice_of(&t, n, t.len());
        assert(rest@ =~= t@.skip(n as int));
        let rest_t = trim_chars(&rest);
        let rest_s = string_of(&rest_t);
        match RVersion::parse(rest_s.as_str()) {
            Some(version) => Some(VersionReq { op, version }),
            None => None,
        }
    }

    /// Whether version `v` meets this constraint.
    pub fn matches(&self, v: &RVersion) -> (r: bool)
        ensures
            r == op_holds(self.op, self.version@, v@),
    {
        let o = v.order(&self.version);
        match self.op {
            Op::Gte => o >= 0,
            Op::Gt => o > 0,
            Op::Lte => o <= 0,
            Op::Lt => o < 0,
            Op::Eq => o == 0,
        }
    }
}

// ---------------------------------------------------------------------------
// Dependencies
// ---------------------------------------------------------------------------

/// A dependency: package name plus an optional version constraint.
#[derive(Debug, Clone)]
pub struct Dep {
    pub name: String,
    pub req: Option<VersionReq>,
}

impl View for Dep {
    type V = (Seq<char>, Option<(Op, Seq<u32>)>);

    open spec fn view(&self) -> (Seq<char>, Option<(Op, Seq<u32>)>) {
        (self.name@, req_view(self.req))
    }
}

impl Dep {
    pub fn new(name: String, req: Option<VersionReq>) -> (r: Self)
        ensures
            r.name@ == name@,
            req_view(r.req) == req_view(req),
    {
        Dep { name, req }
    }
}

impl Duplicate for VersionReq {
    fn duplicate(&self) -> (r: Self) {
        VersionReq { op: self.op, version: self.version.duplicate() }
    }
}

impl Duplicate for Dep {
    fn duplicate(&self) -> (r: Self) {
        let req = match &self.req {
            Some(q) => Some(q.duplicate()),
            None => None,
        };
        Dep { name: self.name.clone(), req }
    }
}

} // verus!
