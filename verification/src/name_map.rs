//! A map from package names to values: the package index and the set of
//! resolved versions. Each name occurs at most once; inserting a name that is
//! already there replaces its value. The entries are kept in ascending order
//! of name, so that a name is found by binary search.
use vstd::prelude::*;
use crate::sorting::{lemma_text_le_antisymmetric, lemma_text_le_total, lemma_text_le_transitive, text_le, text_le_exec};
use crate::text::chars_of;

verus! {

/// The map that a list of distinct-named entries stands for.
pub open spec fn entries_map<V>(e: Seq<(String, V)>) -> Map<Seq<char>, V>
    decreases e.len(),
{
    if e.len() == 0 {
        Map::empty()
    } else {
        entries_map(e.drop_last()).insert(e.last().0@, e.last().1)
    }
}

/// No name occurs twice among the entries.
pub open spec fn distinct_names<V>(e: Seq<(String, V)>) -> bool {
    forall|i: int, j: int| 0 <= i < j < e.len() ==> e[i].0@ != e[j].0@
}

/// The names of the entries, in order.
pub open spec fn entry_names<V>(e: Seq<(String, V)>) -> Seq<Seq<char>> {
    e.map_values(|p: (String, V)| p.0@)
}

/// A name is in the map exactly when some entry carries it, and then the map
/// holds that entry's value.
pub proof fn lemma_entries_map<V>(e: Seq<(String, V)>)
    requires
        distinct_names(e),
    ensures
        forall|k: Seq<char>| #[trigger]
            entries_map(e).dom().contains(k) <==> exists|i: int| 0 <= i < e.len() && e[i].0@ == k,
        forall|i: int| #![trigger e[i]] 0 <= i < e.len() ==> entries_map(e).dom().contains(e[i].0@)
            && entries_map(e)[e[i].0@] == e[i].1,
        entries_map(e).dom().finite(),
        entries_map(e).dom().len() == e.len(),
    decreases e.len(),
{
    if e.len() > 0 {
        let p = e.drop_last();
        assert(distinct_names(p));
        lemma_entries_map(p);
        let last = e.last();
        assert forall|k: Seq<char>| #[trigger]
            entries_map(e).dom().contains(k) <==> exists|i: int| 0 <= i < e.len() && e[i].0@ == k by {
            if entries_map(e).dom().contains(k) {
                if k == last.0@ {
                    assert(e[e.len() - 1].0@ == k);
                } else {
                    assert(entries_map(p).dom().contains(k));
                    let i = choose|i: int| 0 <= i < p.len() && p[i].0@ == k;
                    assert(e[i].0@ == k);
                }
            }
            if exists|i: int| 0 <= i < e.len() && e[i].0@ == k {
                let i = choose|i: int| 0 <= i < e.len() && e[i].0@ == k;
                if i < e.len() - 1 {
                    assert(p[i].0@ == k);
                }
            }
        }
        assert forall|i: int| #![trigger e[i]] 0 <= i < e.len() implies entries_map(e).dom().contains(
            e[i].0@,
        ) && entries_map(e)[e[i].0@] == e[i].1 by {
            if i < e.len() - 1 {
                assert(p[i] == e[i]);
                assert(e[i].0@ != last.0@);
            }
        }
        assert(!entries_map(p).dom().contains(last.0@)) by {
            if entries_map(p).dom().contains(last.0@) {
                let i = choose|i: int| 0 <= i < p.len() && p[i].0@ == last.0@;
                assert(e[i].0@ == e[e.len() - 1].0@);
            }
        }
    }
}

/// `a` comes strictly before `b`.
pub open spec fn text_lt(a: Seq<char>, b: Seq<char>) -> bool {
    text_le(a, b) && !text_le(b, a)
}

/// The names of the entries ascend strictly.
pub open spec fn ascending<V>(e: Seq<(String, V)>) -> bool {
    forall|i: int, j: int| 0 <= i < j < e.len() ==> text_lt(e[i].0@, e[j].0@)
}

/// Strictly ascending names are distinct.
proof fn lemma_ascending_distinct<V>(e: Seq<(String, V)>)
    requires
        ascending(e),
    ensures
        distinct_names(e),
{
    assert forall|i: int, j: int| 0 <= i < j < e.len() implies e[i].0@ != e[j].0@ by {
        assert(text_lt(e[i].0@, e[j].0@));
    }
}

/// "Strictly before" is transitive, and so is "strictly before" followed by
/// "before or equal".
proof fn lemma_lt_trans(a: Seq<char>, b: Seq<char>, c: Seq<char>)
    ensures
        text_lt(a, b) && text_lt(b, c) ==> text_lt(a, c),
        text_lt(a, b) && text_le(b, c) ==> text_lt(a, c),
        text_le(a, b) && text_lt(b, c) ==> text_lt(a, c),
{
    if text_le(a, b) && text_le(b, c) {
        lemma_text_le_transitive(a, b, c);
        if text_le(c, a) {
            lemma_text_le_transitive(c, a, b);
            lemma_text_le_transitive(b, c, a);
        }
    }
}

/// The views of the values of a map.
pub open spec fn value_views<V: View>(m: Map<Seq<char>, V>) -> Map<Seq<char>, V::V> {
    m.map_values(|v: V| v@)
}

/// Values that can be copied with their view kept.
pub trait Duplicate: View + Sized {
    fn duplicate(&self) -> (r: Self)
        ensures
            r@ == self@,
    ;
}

/// Entries with the same names and values of the same views stand for maps
/// with the same views.
proof fn lemma_entries_map_views<V: View>(a: Seq<(String, V)>, b: Seq<(String, V)>)
    requires
        a.len() == b.len(),
        forall|i: int| 0 <= i < a.len() ==> a[i].0@ == b[i].0@ && a[i].1@ == b[i].1@,
    ensures
        value_views(entries_map(a)) == value_views(entries_map(b)),
    decreases a.len(),
{
    if a.len() > 0 {
        let a0 = a.drop_last();
        let b0 = b.drop_last();
        assert forall|i: int| 0 <= i < a0.len() implies a0[i].0@ == b0[i].0@ && a0[i].1@
            == b0[i].1@ by {
            assert(a0[i] == a[i]);
            assert(b0[i] == b[i]);
        }
        lemma_entries_map_views(a0, b0);
        let la = a.last();
        let lb = b.last();
        assert(la.0@ == lb.0@ && la.1@ == lb.1@);
        let ma = entries_map(a0);
        let mb = entries_map(b0);
        assert(entries_map(a) == ma.insert(la.0@, la.1));
        assert(entries_map(b) == mb.insert(lb.0@, lb.1));
        assert(value_views(ma.insert(la.0@, la.1)) =~= value_views(ma).insert(la.0@, la.1@));
        assert(value_views(mb.insert(lb.0@, lb.1)) =~= value_views(mb).insert(lb.0@, lb.1@));
    }
}

/// A map from package names to values.
pub struct NameMap<V> {
    entries: Vec<(String, V)>,
}

impl<V> View for NameMap<V> {
    type V = Map<Seq<char>, V>;

    closed spec fn view(&self) -> Map<Seq<char>, V> {
        entries_map(self.entries@)
    }
}

impl<V> NameMap<V> {
    #[verifier::type_invariant]
    closed spec fn names_ascend(self) -> bool {
        ascending(self.entries@)
    }

    /// The names in the map in the order in which they are kept.
    pub closed spec fn names(&self) -> Seq<Seq<char>> {
        entry_names(self.entries@)
    }

    /// The value kept at position `i`.
    pub closed spec fn value_at(&self, i: int) -> V {
        self.entries@[i].1
    }

    /// An empty map.
    pub fn new() -> (r: Self)
        ensures
            r@ == Map::<Seq<char>, V>::empty(),
    {
        NameMap { entries: Vec::new() }
    }

    /// The number of names in the map. The map keeps each of its names once,
    /// in ascending order.
    pub fn len(&self) -> (r: usize)
        ensures
            r == self@.dom().len(),
            r == self.names().len(),
            self@.dom().finite(),
            forall|i: int, j: int|
                0 <= i < j < self.names().len() ==> text_lt(self.names()[i], self.names()[j]),
            forall|k: Seq<char>| #[trigger]
                self@.dom().contains(k) <==> self.names().contains(k),
            forall|i: int|
                0 <= i < self.names().len() ==> #[trigger] self@[self.names()[i]]
                    == self.value_at(i),
    {
        proof {
            use_type_invariant(self);
            lemma_ascending_distinct(self.entries@);
            lemma_entries_map(self.entries@);
            assert forall|k: Seq<char>| #[trigger] self@.dom().contains(k) <==> self.names().contains(
                k,
            ) by {
                if self@.dom().contains(k) {
                    let i = choose|i: int| 0 <= i < self.entries@.len() && self.entries@[i].0@ == k;
                    assert(self.names()[i] == k);
                }
                if self.names().contains(k) {
                    let i = choose|i: int| 0 <= i < self.names().len() && self.names()[i] == k;
                    assert(self.entries@[i].0@ == k);
                }
            }
            assert forall|i: int|
                0 <= i < self.names().len() implies #[trigger] self@[self.names()[i]]
                == self.value_at(i) by {
                assert(self.entries@[i].0@ == self.names()[i]);
            }
            assert forall|i: int, j: int|
                0 <= i < j < self.names().len() implies text_lt(self.names()[i], self.names()[j]) by {
                assert(self.entries@[i].0@ == self.names()[i]);
                assert(self.entries@[j].0@ == self.names()[j]);
            }
        }
        self.entries.len()
    }

    /// The name kept at position `i`.
    pub fn name_at(&self, i: usize) -> (r: &String)
        requires
            i < self.names().len(),
        ensures
            r@ == self.names()[i as int],
    {
        &self.entries[i].0
    }

    /// The value kept at position `i`.
    pub fn value_at_index(&self, i: usize) -> (r: &V)
        requires
            i < self.names().len(),
        ensures
            *r == self.value_at(i as int),
    {
        &self.entries[i].1
    }

    /// Where `key` stands or would stand among the names: the names before
    /// the position come before it, the others do not; and whether the name
    /// at the position is `key`.
    fn search(&self, key: &Vec<char>) -> (r: (usize, bool))
        ensures
            r.0 <= self.entries@.len(),
            forall|i: int| 0 <= i < r.0 ==> text_lt(#[trigger] self.entries@[i].0@, key@),
            forall|i: int|
                r.0 <= i < self.entries@.len() ==> !text_lt(#[trigger] self.entries@[i].0@, key@),
            r.1 == (r.0 < self.entries@.len() && self.entries@[r.0 as int].0@ == key@),
            r.1 == self@.dom().contains(key@),
            r.1 ==> self@[key@] == self.entries@[r.0 as int].1,
    {
        proof {
            use_type_invariant(self);
            lemma_ascending_distinct(self.entries@);
            lemma_entries_map(self.entries@);
        }
        let mut lo: usize = 0;
        let mut hi: usize = self.entries.len();
        while lo < hi
            invariant
                lo <= hi <= self.entries@.len(),
                ascending(self.entries@),
                forall|i: int| 0 <= i < lo ==> text_lt(#[trigger] self.entries@[i].0@, key@),
                forall|i: int|
                    hi <= i < self.entries@.len() ==> !text_lt(#[trigger] self.entries@[i].0@, key@),
            decreases hi - lo,
        {
            let mid = lo + (hi - lo) / 2;
            let name = chars_of(self.entries[mid].0.as_str());
            let lt = text_le_exec(&name, key) && !text_le_exec(key, &name);
            if lt {
                proof {
                    assert forall|i: int| 0 <= i < mid + 1 implies text_lt(
                        #[trigger] self.entries@[i].0@,
                        key@,
                    ) by {
                        if i < mid {
                            lemma_lt_trans(self.entries@[i].0@, self.entries@[mid as int].0@, key@);
                        }
                    }
                }
                lo = mid + 1;
            } else {
                proof {
                    assert forall|i: int| mid <= i < self.entries@.len() implies !text_lt(
                        #[trigger] self.entries@[i].0@,
                        key@,
                    ) by {
                        if i > mid {
                            lemma_lt_trans(self.entries@[mid as int].0@, self.entries@[i].0@, key@);
                        }
                    }
                }
                hi = mid;
            }
        }
        let found = lo < self.entries.len() && {
            let name = chars_of(self.entries[lo].0.as_str());
            text_le_exec(&name, key) && text_le_exec(key, &name)
        };
        proof {
            if lo < self.entries@.len() {
                let n = self.entries@[lo as int].0@;
                if text_le(n, key@) && text_le(key@, n) {
                    lemma_text_le_antisymmetric(n, key@);
                }
                if n == key@ {
                    crate::sorting::lemma_text_le_reflexive(n);
                }
            }
            if self@.dom().contains(key@) {
                let k = choose|k: int| 0 <= k < self.entries@.len() && self.entries@[k].0@ == key@;
                crate::sorting::lemma_text_le_reflexive(key@);
                if k < lo {
                    assert(text_lt(self.entries@[k].0@, key@));
                } else if k > lo {
                    assert(text_lt(self.entries@[lo as int].0@, self.entries@[k].0@));
                    lemma_text_le_total(self.entries@[lo as int].0@, key@);
                    assert(!text_lt(self.entries@[lo as int].0@, key@));
                    lemma_text_le_antisymmetric(self.entries@[lo as int].0@, key@);
                }
            }
            if found {
                assert(self.entries@[lo as int] == self.entries@[lo as int]);
            }
        }
        (lo, found)
    }

    /// The value for `name`, if the map holds it.
    pub fn get(&self, name: &str) -> (r: Option<&V>)
        ensures
            match r {
                Some(v) => self@.dom().contains(name@) && *v == self@[name@],
                None => !self@.dom().contains(name@),
            },
    {
        let key = chars_of(name);
        let (p, found) = self.search(&key);
        if found {
            Some(&self.entries[p].1)
        } else {
            None
        }
    }

    /// Whether the map holds `name`.
    pub fn contains_key(&self, name: &str) -> (r: bool)
        ensures
            r == self@.dom().contains(name@),
    {
        let key = chars_of(name);
        self.search(&key).1
    }

    /// Sets the value for `name`, replacing the one it had.
    pub fn insert(&mut self, name: String, value: V)
        ensures
            final(self)@ == old(self)@.insert(name@, value),
    {
        proof {
            use_type_invariant(&*self);
            lemma_ascending_distinct(self.entries@);
            lemma_entries_map(self.entries@);
        }
        let key = chars_of(name.as_str());
        let (p, found) = self.search(&key);
        let ghost old_e = self.entries@;
        let mut entries = Vec::new();
        std::mem::swap(&mut entries, &mut self.entries);
        if found {
            entries.set(p, (name, value));
            proof {
                let e = entries@;
                assert(entry_names(e) =~= entry_names(old_e));
                assert(ascending(e)) by {
                    assert forall|a: int, b: int| 0 <= a < b < e.len() implies text_lt(
                        e[a].0@,
                        e[b].0@,
                    ) by {
                        assert(e[a].0@ == entry_names(e)[a]);
                        assert(e[b].0@ == entry_names(e)[b]);
                        assert(old_e[a].0@ == entry_names(old_e)[a]);
                        assert(old_e[b].0@ == entry_names(old_e)[b]);
                    }
                }
                lemma_ascending_distinct(e);
                lemma_entries_map(e);
                assert(entries_map(e) =~= entries_map(old_e).insert(name@, value)) by {
                    assert forall|k: Seq<char>| #[trigger]
                        entries_map(e).dom().contains(k) implies entries_map(old_e).insert(
                        name@,
                        value,
                    ).dom().contains(k) && entries_map(e)[k] == entries_map(old_e).insert(
                        name@,
                        value,
                    )[k] by {
                        let j = choose|j: int| 0 <= j < e.len() && e[j].0@ == k;
                        assert(e[j].0@ == entry_names(e)[j]);
                        assert(old_e[j].0@ == entry_names(old_e)[j]);
                        assert(old_e[j] == old_e[j]);
                    }
                    assert forall|k: Seq<char>| #[trigger]
                        entries_map(old_e).insert(name@, value).dom().contains(
                            k,
                        ) implies entries_map(e).dom().contains(k) by {
                        if k != name@ {
                            let j = choose|j: int| 0 <= j < old_e.len() && old_e[j].0@ == k;
                            assert(e[j].0@ == entry_names(e)[j]);
                            assert(old_e[j].0@ == entry_names(old_e)[j]);
                        } else {
                            assert(e[p as int].0@ == k);
                        }
                    }
                }
            }
        } else {
            let ghost nv = name@;
            entries.insert(p, (name, value));
            proof {
                let e = entries@;
                assert(e =~= old_e.insert(p as int, e[p as int]));
                assert(e[p as int].0@ == nv);
                if p < old_e.len() {
                    lemma_text_le_total(old_e[p as int].0@, nv);
                    if text_le(old_e[p as int].0@, nv) && text_le(nv, old_e[p as int].0@) {
                        lemma_text_le_antisymmetric(old_e[p as int].0@, nv);
                    }
                    assert(text_lt(nv, old_e[p as int].0@));
                }
                assert(ascending(e)) by {
                    assert forall|a: int, b: int| 0 <= a < b < e.len() implies text_lt(
                        e[a].0@,
                        e[b].0@,
                    ) by {
                        let a2 = if a < p { a } else { a - 1 };
                        let b2 = if b < p { b } else { b - 1 };
                        if a == p {
                            assert(e[b] == old_e[b2]);
                            if b2 > p {
                                lemma_lt_trans(nv, old_e[p as int].0@, old_e[b2].0@);
                            }
                        } else if b == p {
                            assert(e[a] == old_e[a2]);
                        } else {
                            assert(e[a] == old_e[a2]);
                            assert(e[b] == old_e[b2]);
                        }
                    }
                }
                lemma_ascending_distinct(e);
                lemma_entries_map(e);
                assert(entries_map(e) =~= entries_map(old_e).insert(nv, value)) by {
                    assert forall|k: Seq<char>| #[trigger]
                        entries_map(e).dom().contains(k) implies entries_map(old_e).insert(
                        nv,
                        value,
                    ).dom().contains(k) && entries_map(e)[k] == entries_map(old_e).insert(
                        nv,
                        value,
                    )[k] by {
                        let j = choose|j: int| 0 <= j < e.len() && e[j].0@ == k;
                        if j != p {
                            let j2 = if j < p { j } else { j - 1 };
                            assert(e[j] == old_e[j2]);
                        }
                    }
                    assert forall|k: Seq<char>| #[trigger]
                        entries_map(old_e).insert(nv, value).dom().contains(
                            k,
                        ) implies entries_map(e).dom().contains(k) by {
                        if k != nv {
                            let j = choose|j: int| 0 <= j < old_e.len() && old_e[j].0@ == k;
                            let j2 = if j < p { j } else { j + 1 };
                            assert(e[j2] == old_e[j]);
                        } else {
                            assert(e[p as int].0@ == k);
                        }
                    }
                }
            }
        }
        self.entries = entries;
    }

    /// Takes `name` out of the map, giving back its value if it was there.
    pub fn remove(&mut self, name: &str) -> (r: Option<V>)
        ensures
            final(self)@ == old(self)@.remove(name@),
            match r {
                Some(v) => old(self)@.dom().contains(name@) && v == old(self)@[name@],
                None => !old(self)@.dom().contains(name@),
            },
    {
        proof {
            use_type_invariant(&*self);
            lemma_ascending_distinct(self.entries@);
            lemma_entries_map(self.entries@);
        }
        let key = chars_of(name);
        let (i, found) = self.search(&key);
        if found {
            let ghost old_e = self.entries@;
            let mut entries = Vec::new();
            std::mem::swap(&mut entries, &mut self.entries);
            let removed = entries.remove(i);
            proof {
                let e = entries@;
                assert(e =~= old_e.remove(i as int));
                assert(ascending(e)) by {
                    assert forall|a: int, b: int| 0 <= a < b < e.len() implies text_lt(
                        e[a].0@,
                        e[b].0@,
                    ) by {
                        let a2 = if a < i { a } else { a + 1 };
                        let b2 = if b < i { b } else { b + 1 };
                        assert(e[a] == old_e[a2]);
                        assert(e[b] == old_e[b2]);
                    }
                }
                lemma_ascending_distinct(e);
                lemma_entries_map(e);
                assert(entries_map(e) =~= entries_map(old_e).remove(name@)) by {
                    assert forall|k: Seq<char>| #[trigger]
                        entries_map(e).dom().contains(k) implies entries_map(old_e).remove(
                        name@,
                    ).dom().contains(k) && entries_map(e)[k] == entries_map(old_e).remove(
                        name@,
                    )[k] by {
                        let j = choose|j: int| 0 <= j < e.len() && e[j].0@ == k;
                        let j2 = if j < i { j } else { j + 1 };
                        assert(e[j] == old_e[j2]);
                        assert(j2 != i);
                    }
                    assert forall|k: Seq<char>| #[trigger]
                        entries_map(old_e).remove(name@).dom().contains(
                            k,
                        ) implies entries_map(e).dom().contains(k) by {
                        let j = choose|j: int| 0 <= j < old_e.len() && old_e[j].0@ == k;
                        assert(j != i);
                        let j2 = if j < i { j } else { j - 1 };
                        assert(e[j2] == old_e[j]);
                    }
                }
            }
            self.entries = entries;
            Some(removed.1)
        } else {
            assert(old(self)@.remove(name@) =~= old(self)@);
            None
        }
    }
}

impl<V: Duplicate> NameMap<V> {
    /// A copy of the map whose values have the same views.
    pub fn duplicate_map(&self) -> (r: NameMap<V>)
        ensures
            value_views(r@) == value_views(self@),
    {
        proof {
            use_type_invariant(self);
        }
        let mut entries: Vec<(String, V)> = Vec::new();
        let mut i: usize = 0;
        while i < self.entries.len()
            invariant
                i <= self.entries@.len(),
                ascending(self.entries@),
                entries@.len() == i,
                forall|k: int|
                    0 <= k < i ==> (#[trigger] entries@[k]).0@ == self.entries@[k].0@
                        && entries@[k].1@ == self.entries@[k].1@,
            decreases self.entries.len() - i,
        {
            let n = self.entries[i].0.clone();
            let v = self.entries[i].1.duplicate();
            entries.push((n, v));
            i += 1;
        }
        proof {
            assert(ascending(entries@)) by {
                assert forall|a: int, b: int| 0 <= a < b < entries@.len() implies text_lt(
                    entries@[a].0@,
                    entries@[b].0@,
                ) by {
                    assert(entries@[a].0@ == self.entries@[a].0@);
                    assert(entries@[b].0@ == self.entries@[b].0@);
                }
            }
            lemma_entries_map_views(entries@, self.entries@);
        }
        NameMap { entries }
    }
}

} // verus!
