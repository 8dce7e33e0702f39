//! Sorting lists of names in the order of `str`: character by character, by
//! code point, a prefix before any longer text.
use vstd::prelude::*;
use vstd::multiset::Multiset;
use crate::text::{chars_of, views};

verus! {

/// `a` comes before `b` or equals it, comparing characters by code point
/// from the left, a prefix first.
pub open spec fn text_le(a: Seq<char>, b: Seq<char>) -> bool
    decreases a.len(),
{
    if a.len() == 0 {
        true
    } else if b.len() == 0 {
        false
    } else if (a[0] as int) < (b[0] as int) {
        true
    } else if (a[0] as int) > (b[0] as int) {
        false
    } else {
        text_le(a.drop_first(), b.drop_first())
    }
}

/// `x` placed before the first element that it does not come after.
pub open spec fn insert_sorted(x: Seq<char>, s: Seq<Seq<char>>) -> Seq<Seq<char>>
    decreases s.len(),
{
    if s.len() == 0 {
        seq![x]
    } else if text_le(x, s[0]) {
        seq![x] + s
    } else {
        seq![s[0]] + insert_sorted(x, s.drop_first())
    }
}

/// The texts of `s` in ascending order.
pub open spec fn sort_texts(s: Seq<Seq<char>>) -> Seq<Seq<char>>
    decreases s.len(),
{
    if s.len() == 0 {
        seq![]
    } else {
        insert_sorted(s.last(), sort_texts(s.drop_last()))
    }
}

/// Each element comes before or equals the next ones.
pub open spec fn is_sorted(s: Seq<Seq<char>>) -> bool {
    forall|i: int, j: int| 0 <= i < j < s.len() ==> text_le(s[i], s[j])
}

// ---------------------------------------------------------------------------
// The order of texts
// ---------------------------------------------------------------------------

/// Law: any two texts are ordered one way or the other.
pub proof fn lemma_text_le_total(a: Seq<char>, b: Seq<char>)
    ensures
        text_le(a, b) || text_le(b, a),
    decreases a.len(),
{
    if a.len() > 0 && b.len() > 0 && a[0] == b[0] {
        lemma_text_le_total(a.drop_first(), b.drop_first());
    } else if a.len() > 0 && b.len() > 0 && (a[0] as int) == (b[0] as int) {
        assert(a[0] == b[0]);
    }
}

/// Law: the order of texts is transitive.
pub proof fn lemma_text_le_transitive(a: Seq<char>, b: Seq<char>, c: Seq<char>)
    requires
        text_le(a, b),
        text_le(b, c),
    ensures
        text_le(a, c),
    decreases a.len(),
{
    if a.len() > 0 && b.len() > 0 && c.len() > 0 {
        if (a[0] as int) == (b[0] as int) && (b[0] as int) == (c[0] as int) {
            lemma_text_le_transitive(a.drop_first(), b.drop_first(), c.drop_first());
        }
    }
}

/// Law: two texts that each come before or equal the other are equal.
pub proof fn lemma_text_le_antisymmetric(a: Seq<char>, b: Seq<char>)
    requires
        text_le(a, b),
        text_le(b, a),
    ensures
        a == b,
    decreases a.len(),
{
    if a.len() == 0 {
        assert(b.len() == 0);
        assert(a =~= b);
    } else {
        assert(b.len() > 0);
        assert((a[0] as int) == (b[0] as int));
        assert(a[0] == b[0]);
        lemma_text_le_antisymmetric(a.drop_first(), b.drop_first());
        assert(a =~= seq![a[0]] + a.drop_first());
        assert(b =~= seq![b[0]] + b.drop_first());
    }
}

/// Every text comes before or equals itself.
pub proof fn lemma_text_le_reflexive(a: Seq<char>)
    ensures
        text_le(a, a),
    decreases a.len(),
{
    if a.len() > 0 {
        lemma_text_le_reflexive(a.drop_first());
    }
}

// ---------------------------------------------------------------------------
// Sorting
// ---------------------------------------------------------------------------

/// Inserting into a sorted list keeps it sorted and adds exactly `x`.
proof fn lemma_insert_sorted(x: Seq<char>, s: Seq<Seq<char>>)
    requires
        is_sorted(s),
    ensures
        is_sorted(insert_sorted(x, s)),
        insert_sorted(x, s).to_multiset() == s.to_multiset().insert(x),
        insert_sorted(x, s).len() == s.len() + 1,
    decreases s.len(),
{
    broadcast use vstd::seq_lib::group_to_multiset_ensures;

    let r = insert_sorted(x, s);
    if s.len() == 0 {
        assert(r =~= seq![x]);
        assert(seq![x] =~= Seq::<Seq<char>>::empty().push(x));
    } else if text_le(x, s[0]) {
        assert(r =~= seq![x] + s);
        assert forall|i: int, j: int| 0 <= i < j < r.len() implies text_le(r[i], r[j]) by {
            if i == 0 {
                assert(r[j] == s[j - 1]);
                if j - 1 > 0 {
                    lemma_text_le_transitive(x, s[0], s[j - 1]);
                }
            } else {
                assert(r[i] == s[i - 1]);
                assert(r[j] == s[j - 1]);
            }
        }
        lemma_multiset_prepend(x, s);
    } else {
        let t = s.drop_first();
        assert(is_sorted(t)) by {
            assert forall|i: int, j: int| 0 <= i < j < t.len() implies text_le(t[i], t[j]) by {
                assert(t[i] == s[i + 1]);
                assert(t[j] == s[j + 1]);
            }
        }
        lemma_insert_sorted(x, t);
        let it = insert_sorted(x, t);
        assert(r =~= seq![s[0]] + it);
        lemma_text_le_total(x, s[0]);
        assert forall|i: int, j: int| 0 <= i < j < r.len() implies text_le(r[i], r[j]) by {
            if i == 0 {
                assert(r[j] == it[j - 1]);
                assert(it.to_multiset().count(it[j - 1]) > 0) by {
                    lemma_contains_count(it, j - 1);
                }
                assert(t.to_multiset().insert(x).count(it[j - 1]) > 0);
                if it[j - 1] != x {
                    assert(t.to_multiset().count(it[j - 1]) > 0);
                    let k = lemma_count_index(t, it[j - 1]);
                    assert(s[k + 1] == t[k]);
                }
            } else {
                assert(r[i] == it[i - 1]);
                assert(r[j] == it[j - 1]);
            }
        }
        lemma_multiset_prepend(s[0], it);
        lemma_multiset_prepend(s[0], t);
        assert(s =~= seq![s[0]] + t);
        assert(r.to_multiset() =~= s.to_multiset().insert(x));
    }
}

/// Putting `x` in front adds `x` to the multiset.
proof fn lemma_multiset_prepend(x: Seq<char>, s: Seq<Seq<char>>)
    ensures
        (seq![x] + s).to_multiset() == s.to_multiset().insert(x),
{
    broadcast use vstd::seq_lib::group_to_multiset_ensures;

    vstd::seq_lib::lemma_multiset_commutative(seq![x], s);
    assert(seq![x] =~= Seq::<Seq<char>>::empty().push(x));
    assert(seq![x].to_multiset() =~= Multiset::<Seq<char>>::empty().insert(x));
}

/// An element of a sequence is counted in its multiset.
proof fn lemma_contains_count(s: Seq<Seq<char>>, i: int)
    requires
        0 <= i < s.len(),
    ensures
        s.to_multiset().count(s[i]) > 0,
{
    broadcast use vstd::seq_lib::group_to_multiset_ensures;

    assert(s.contains(s[i]));
}

/// An element counted in the multiset of a sequence stands at some index.
proof fn lemma_count_index(s: Seq<Seq<char>>, x: Seq<char>) -> (k: int)
    requires
        s.to_multiset().count(x) > 0,
    ensures
        0 <= k < s.len(),
        s[k] == x,
{
    broadcast use vstd::seq_lib::group_to_multiset_ensures;

    assert(s.contains(x));
    choose|k: int| 0 <= k < s.len() && s[k] == x
}

/// Law: sorting gives an ascending list of the same texts, each as often as
/// before.
pub proof fn lemma_sort_texts(s: Seq<Seq<char>>)
    ensures
        is_sorted(sort_texts(s)),
        sort_texts(s).to_multiset() == s.to_multiset(),
        sort_texts(s).len() == s.len(),
    decreases s.len(),
{
    broadcast use vstd::seq_lib::group_to_multiset_ensures;

    if s.len() == 0 {
        assert(sort_texts(s) =~= s);
    } else {
        lemma_sort_texts(s.drop_last());
        lemma_insert_sorted(s.last(), sort_texts(s.drop_last()));
        assert(s =~= s.drop_last().push(s.last()));
    }
}

/// Two ascending lists of the same texts are the same list.
pub proof fn lemma_sorted_unique(a: Seq<Seq<char>>, b: Seq<Seq<char>>)
    requires
        is_sorted(a),
        is_sorted(b),
        a.to_multiset() == b.to_multiset(),
    ensures
        a == b,
    decreases a.len(),
{
    broadcast use vstd::seq_lib::group_to_multiset_ensures;

    assert(a.len() == a.to_multiset().len());
    assert(b.len() == b.to_multiset().len());
    if a.len() == 0 {
        assert(a =~= b);
    } else {
        lemma_contains_count(a, 0);
        lemma_contains_count(b, 0);
        let ka = lemma_count_index(b, a[0]);
        let kb = lemma_count_index(a, b[0]);
        if ka > 0 {
            assert(text_le(b[0], b[ka]));
        } else {
            lemma_text_le_reflexive(b[0]);
        }
        if kb > 0 {
            assert(text_le(a[0], a[kb]));
        } else {
            lemma_text_le_reflexive(a[0]);
        }
        lemma_text_le_antisymmetric(a[0], b[0]);
        let ta = a.drop_first();
        let tb = b.drop_first();
        lemma_multiset_prepend(a[0], ta);
        lemma_multiset_prepend(b[0], tb);
        assert(a =~= seq![a[0]] + ta);
        assert(b =~= seq![b[0]] + tb);
        assert(ta.to_multiset() =~= tb.to_multiset()) by {
            assert(ta.to_multiset().insert(a[0]) == tb.to_multiset().insert(a[0]));
            assert forall|x: Seq<char>| ta.to_multiset().count(x) == tb.to_multiset().count(x) by {
                assert(ta.to_multiset().insert(a[0]).count(x) == tb.to_multiset().insert(
                    a[0],
                ).count(x));
            }
        }
        assert(is_sorted(ta)) by {
            assert forall|i: int, j: int| 0 <= i < j < ta.len() implies text_le(ta[i], ta[j]) by {
                assert(ta[i] == a[i + 1]);
                assert(ta[j] == a[j + 1]);
            }
        }
        assert(is_sorted(tb)) by {
            assert forall|i: int, j: int| 0 <= i < j < tb.len() implies text_le(tb[i], tb[j]) by {
                assert(tb[i] == b[i + 1]);
                assert(tb[j] == b[j + 1]);
            }
        }
        lemma_sorted_unique(ta, tb);
    }
}

/// Law: two lists sort to the same list exactly when they hold the same
/// texts, each as often; the order in which they are given does not matter.
pub proof fn lemma_sort_texts_same(a: Seq<Seq<char>>, b: Seq<Seq<char>>)
    ensures
        (sort_texts(a) == sort_texts(b)) <==> (a.to_multiset() == b.to_multiset()),
{
    lemma_sort_texts(a);
    lemma_sort_texts(b);
    if a.to_multiset() == b.to_multiset() {
        lemma_sorted_unique(sort_texts(a), sort_texts(b));
    }
}

/// Whether `a` comes before or equals `b`.
pub fn text_le_exec(a: &Vec<char>, b: &Vec<char>) -> (r: bool)
    ensures
        r == text_le(a@, b@),
{
    let mut i: usize = 0;
    assert(a@.skip(0) =~= a@);
    assert(b@.skip(0) =~= b@);
    while i < a.len() && i < b.len() && a[i] == b[i]
        invariant
            i <= a.len(),
            i <= b.len(),
            text_le(a@, b@) == text_le(a@.skip(i as int), b@.skip(i as int)),
        decreases a.len() - i,
    {
        assert(a@.skip(i as int).drop_first() =~= a@.skip(i + 1));
        assert(b@.skip(i as int).drop_first() =~= b@.skip(i + 1));
        assert(a@.skip(i as int)[0] == a@[i as int]);
        assert(b@.skip(i as int)[0] == b@[i as int]);
        i += 1;
    }
    if i == a.len() {
        return true;
    }
    if i == b.len() {
        return false;
    }
    assert(a@.skip(i as int)[0] == a@[i as int]);
    assert(b@.skip(i as int)[0] == b@[i as int]);
    a[i] < b[i]
}

/// Where `insert_sorted` puts `x`: before the first element it does not come
/// after.
proof fn lemma_insert_at(x: Seq<char>, s: Seq<Seq<char>>, p: int)
    requires
        0 <= p <= s.len(),
        forall|k: int| 0 <= k < p ==> !text_le(x, #[trigger] s[k]),
        p < s.len() ==> text_le(x, s[p]),
    ensures
        insert_sorted(x, s) == s.take(p) + seq![x] + s.skip(p),
    decreases s.len(),
{
    if s.len() == 0 {
        assert(s.take(p) + seq![x] + s.skip(p) =~= seq![x]);
    } else if p == 0 {
        assert(s.take(p) + seq![x] + s.skip(p) =~= seq![x] + s);
    } else {
        let t = s.drop_first();
        assert forall|k: int| 0 <= k < p - 1 implies !text_le(x, #[trigger] t[k]) by {
            assert(t[k] == s[k + 1]);
        }
        if p - 1 < t.len() {
            assert(t[p - 1] == s[p]);
        }
        lemma_insert_at(x, t, p - 1);
        assert(s.take(p) + seq![x] + s.skip(p) =~= seq![s[0]] + (t.take(p - 1) + seq![x] + t.skip(
            p - 1,
        )));
    }
}

/// The strings of `v` in ascending order, as character vectors.
pub fn sorted_chars(v: &Vec<String>) -> (r: Vec<Vec<char>>)
    ensures
        views(r@) == sort_texts(v@.map_values(|s: String| s@)),
{
    let ghost src = v@.map_values(|s: String| s@);
    let mut out: Vec<Vec<char>> = Vec::new();
    let mut i: usize = 0;
    while i < v.len()
        invariant
            i <= v.len(),
            src == v@.map_values(|s: String| s@),
            views(out@) == sort_texts(src.take(i as int)),
        decreases v.len() - i,
    {
        let x = chars_of(v[i].as_str());
        assert(src.take(i + 1).drop_last() =~= src.take(i as int));
        assert(src.take(i + 1).last() == x@);
        let mut p: usize = 0;
        while p < out.len() && !text_le_exec(&x, &out[p])
            invariant
                p <= out.len(),
                forall|k: int| 0 <= k < p ==> !text_le(x@, #[trigger] views(out@)[k]),
            decreases out.len() - p,
        {
            assert(views(out@)[p as int] == out@[p as int]@);
            p += 1;
        }
        proof {
            if p < out.len() {
                assert(views(out@)[p as int] == out@[p as int]@);
            }
            lemma_insert_at(x@, views(out@), p as int);
        }
        let ghost before = out@;
        out.insert(p, x);
        assert(views(out@) =~= views(before).take(p as int) + seq![x@] + views(before).skip(
            p as int,
        ));
        i += 1;
    }
    assert(src.take(v.len() as int) =~= src);
    out
}

} // verus!
