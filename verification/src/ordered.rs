//! The order of strings by code point (the order of `str`), and sorted
//! string collections built on it: an ordered string set and an ordered
//! string-to-string map.
use vstd::prelude::*;
use crate::text::{chars_of, owned};

verus! {

/// Lexicographic order on characters by code point, compared from index `i`.
pub open spec fn less_from(a: Seq<char>, b: Seq<char>, i: nat) -> bool
    decreases a.len() - i,
{
    if i >= a.len() {
        i < b.len()
    } else if i >= b.len() {
        false
    } else if a[i as int] != b[i as int] {
        (a[i as int] as int) < (b[i as int] as int)
    } else {
        less_from(a, b, i + 1)
    }
}

/// `a` comes strictly before `b` in code point order.
pub open spec fn chars_less(a: Seq<char>, b: Seq<char>) -> bool {
    less_from(a, b, 0)
}

proof fn lemma_less_from_irreflexive(a: Seq<char>, i: nat)
    ensures
        !less_from(a, a, i),
    decreases a.len() - i,
{
    if i < a.len() {
        lemma_less_from_irreflexive(a, i + 1);
    }
}

proof fn lemma_less_from_transitive(a: Seq<char>, b: Seq<char>, c: Seq<char>, i: nat)
    requires
        less_from(a, b, i),
        less_from(b, c, i),
    ensures
        less_from(a, c, i),
    decreases a.len() - i,
{
    if i < a.len() && i < b.len() && i < c.len() && a[i as int] == b[i as int] && b[i as int] == c[i as int] {
        lemma_less_from_transitive(a, b, c, i + 1);
    }
}

proof fn lemma_less_from_total(a: Seq<char>, b: Seq<char>, i: nat)
    requires
        i <= a.len(),
        i <= b.len(),
        forall|k: int| 0 <= k < i ==> a[k] == b[k],
        a != b,
    ensures
        less_from(a, b, i) || less_from(b, a, i),
    decreases a.len() - i,
{
    if i == a.len() && i == b.len() {
        assert(a =~= b);
    } else if i < a.len() && i < b.len() && a[i as int] == b[i as int] {
        lemma_less_from_total(a, b, i + 1);
    } else if i < a.len() && i < b.len() {
        assert((a[i as int] as int) != (b[i as int] as int));
    }
}

/// Code point order is a strict total order.
pub proof fn lemma_chars_less_order(a: Seq<char>, b: Seq<char>, c: Seq<char>)
    ensures
        !chars_less(a, a),
        chars_less(a, b) && chars_less(b, c) ==> chars_less(a, c),
        a != b ==> chars_less(a, b) || chars_less(b, a),
        chars_less(a, b) ==> !chars_less(b, a),
{
    lemma_less_from_irreflexive(a, 0);
    if chars_less(a, b) && chars_less(b, c) {
        lemma_less_from_transitive(a, b, c, 0);
    }
    if a != b {
        lemma_less_from_total(a, b, 0);
    }
    if chars_less(a, b) && chars_less(b, a) {
        lemma_less_from_transitive(a, b, a, 0);
        lemma_less_from_irreflexive(a, 0);
    }
}

/// Whether `a` comes strictly before `b` in code point order.
pub fn str_less(a: &str, b: &str) -> (r: bool)
    ensures
        r == chars_less(a@, b@),
{
    let ac = chars_of(a);
    let bc = chars_of(b);
    let mut i: usize = 0;
    while i < ac.len() && i < bc.len() && ac[i] == bc[i]
        invariant
            ac@ == a@,
            bc@ == b@,
            i <= ac@.len(),
            i <= bc@.len(),
            less_from(a@, b@, 0) == less_from(a@, b@, i as nat),
        decreases ac@.len() - i,
    {
        i = i + 1;
    }
    if i >= ac.len() {
        i < bc.len()
    } else if i >= bc.len() {
        false
    } else {
        ac[i] < bc[i]
    }
}

/// The characters of each string.
pub open spec fn str_views(v: Seq<String>) -> Seq<Seq<char>> {
    v.map_values(|s: String| s@)
}

/// Each string comes strictly before every later one.
pub open spec fn strictly_sorted(s: Seq<Seq<char>>) -> bool {
    forall|i: int, j: int| 0 <= i < j < s.len() ==> chars_less(s[i], s[j])
}

/// A strictly sorted sequence holds no string twice.
pub proof fn lemma_sorted_distinct(s: Seq<Seq<char>>, i: int, j: int)
    requires
        strictly_sorted(s),
        0 <= i < s.len(),
        0 <= j < s.len(),
        s[i] == s[j],
    ensures
        i == j,
{
    if i < j {
        assert(chars_less(s[i], s[j]));
        lemma_chars_less_order(s[i], s[j], s[j]);
    } else if j < i {
        assert(chars_less(s[j], s[i]));
        lemma_chars_less_order(s[i], s[j], s[j]);
    }
}

/// Where `key` stands in the sorted keys: the first index whose key does not
/// come before it, and whether the key there is `key` itself.
pub fn find_slot(keys: &Vec<String>, key: &str) -> (r: (usize, bool))
    requires
        strictly_sorted(str_views(keys@)),
    ensures
        r.0 <= keys@.len(),
        forall|j: int| 0 <= j < r.0 ==> chars_less(#[trigger] keys@[j]@, key@),
        r.1 ==> r.0 < keys@.len() && keys@[r.0 as int]@ == key@,
        !r.1 ==> forall|j: int| r.0 <= j < keys@.len() ==> chars_less(key@, #[trigger] keys@[j]@),
        !r.1 ==> forall|j: int| 0 <= j < keys@.len() ==> #[trigger] keys@[j]@ != key@,
{
    let mut i: usize = 0;
    while i < keys.len()
        invariant
            i <= keys@.len(),
            strictly_sorted(str_views(keys@)),
            forall|j: int| 0 <= j < i ==> chars_less(#[trigger] keys@[j]@, key@),
        decreases keys@.len() - i,
    {
        if !str_less(keys[i].as_str(), key) {
            let found = crate::text::str_eq(keys[i].as_str(), key);
            proof {
                assert forall|j: int| i <= j < keys@.len() && !found implies chars_less(key@, #[trigger] keys@[j]@) by {
                    lemma_chars_less_order(keys@[i as int]@, key@, key@);
                    lemma_chars_less_order(key@, keys@[i as int]@, keys@[j]@);
                    if j > i {
                        assert(str_views(keys@)[i as int] == keys@[i as int]@);
                        assert(str_views(keys@)[j] == keys@[j]@);
                    }
                }
                assert forall|j: int| 0 <= j < keys@.len() && !found implies #[trigger] keys@[j]@ != key@ by {
                    if j < i {
                        lemma_chars_less_order(keys@[j]@, key@, key@);
                    } else {
                        lemma_chars_less_order(key@, keys@[j]@, key@);
                    }
                }
            }
            return (i, found);
        }
        i = i + 1;
    }
    proof {
        assert forall|j: int| 0 <= j < keys@.len() implies #[trigger] keys@[j]@ != key@ by {
            lemma_chars_less_order(keys@[j]@, key@, key@);
        }
    }
    (i, false)
}

proof fn lemma_sorted_insert(s: Seq<Seq<char>>, i: int, k: Seq<char>)
    requires
        strictly_sorted(s),
        0 <= i <= s.len(),
        forall|j: int| 0 <= j < i ==> chars_less(#[trigger] s[j], k),
        forall|j: int| i <= j < s.len() ==> chars_less(k, #[trigger] s[j]),
    ensures
        strictly_sorted(s.insert(i, k)),
{
    let t = s.insert(i, k);
    assert forall|a: int, b: int| 0 <= a < b < t.len() implies chars_less(t[a], t[b]) by {
        if a < i && b < i {
        } else if a < i && b == i {
        } else if a < i {
            assert(t[b] == s[b - 1]);
        } else if a == i {
            assert(t[b] == s[b - 1]);
        } else {
            assert(t[a] == s[a - 1]);
            assert(t[b] == s[b - 1]);
        }
    }
}

/// A set of strings kept in code point order.
#[derive(Debug, Clone, PartialEq, Eq)]
pub struct SortedStrings {
    items: Vec<String>,
}

impl SortedStrings {
    pub closed spec fn view(&self) -> Seq<Seq<char>> {
        str_views(self.items@)
    }

    pub open spec fn wf(&self) -> bool {
        strictly_sorted(self.view())
    }

    pub fn new() -> (r: Self)
        ensures
            r.wf(),
            r.view() == Seq::<Seq<char>>::empty(),
    {
        let r = SortedStrings { items: Vec::new() };
        assert(r.view() =~= Seq::<Seq<char>>::empty());
        r
    }

    /// Adds `s` unless it is already there.
    pub fn insert(&mut self, s: &str)
        requires
            old(self).wf(),
        ensures
            final(self).wf(),
            final(self).view().contains(s@),
            forall|t: Seq<char>| old(self).view().contains(t) ==> final(self).view().contains(t),
            forall|t: Seq<char>| #[trigger] final(self).view().contains(t) ==> t == s@ || old(self).view().contains(t),
    {
        let (i, found) = find_slot(&self.items, s);
        let ghost old_view = self.view();
        if found {
            assert(old_view[i as int] == s@);
            return;
        }
        proof {
            assert forall|j: int| 0 <= j < i implies chars_less(#[trigger] old_view[j], s@) by {
                assert(old_view[j] == self.items@[j]@);
            }
            assert forall|j: int| i <= j < old_view.len() implies chars_less(s@, #[trigger] old_view[j]) by {
                assert(old_view[j] == self.items@[j]@);
            }
            lemma_sorted_insert(old_view, i as int, s@);
        }
        self.items.insert(i, owned(s));
        proof {
            assert(self.view() =~= old_view.insert(i as int, s@));
            assert(self.view()[i as int] == s@);
            assert forall|t: Seq<char>| old_view.contains(t) implies self.view().contains(t) by {
                let j = choose|j: int| 0 <= j < old_view.len() && old_view[j] == t;
                if j < i {
                    assert(self.view()[j] == t);
                } else {
                    assert(self.view()[j + 1] == t);
                }
            }
            assert forall|t: Seq<char>| #[trigger] self.view().contains(t) implies t == s@ || old_view.contains(t) by {
                let j = choose|j: int| 0 <= j < self.view().len() && self.view()[j] == t;
                if j < i {
                    assert(old_view[j] == t);
                } else if j > i {
                    assert(old_view[j - 1] == t);
                }
            }
        }
    }

    /// Whether `s` is in the set.
    pub fn contains(&self, s: &str) -> (r: bool)
        requires
            self.wf(),
        ensures
            r == self.view().contains(s@),
    {
        let (i, found) = find_slot(&self.items, s);
        proof {
            if found {
                assert(self.view()[i as int] == s@);
            } else {
                assert forall|j: int| 0 <= j < self.view().len() implies self.view()[j] != s@ by {
                    assert(self.view()[j] == self.items@[j]@);
                }
            }
        }
        found
    }

    /// The strings, in order.
    pub fn as_slice(&self) -> (r: &[String])
        ensures
            str_views(r@) == self.view(),
    {
        self.items.as_slice()
    }

    pub fn is_empty(&self) -> (r: bool)
        ensures
            r == (self.view().len() == 0),
    {
        self.items.len() == 0
    }

    /// The strings, in order.
    pub fn into_vec(self) -> (v: Vec<String>)
        requires
            self.wf(),
        ensures
            str_views(v@) == self.view(),
            strictly_sorted(str_views(v@)),
    {
        self.items
    }
}

/// A map from strings to strings, iterated in code point order of its keys.
#[derive(Debug, Clone, PartialEq, Eq)]
pub struct OptionsMap {
    keys: Vec<String>,
    values: Vec<String>,
}

impl OptionsMap {
    /// The keys, in order.
    pub closed spec fn keys_view(&self) -> Seq<Seq<char>> {
        str_views(self.keys@)
    }

    /// The value of each key, in the order of the keys.
    pub closed spec fn values_view(&self) -> Seq<Seq<char>> {
        str_views(self.values@)
    }

    pub closed spec fn wf(&self) -> bool {
        &&& self.keys@.len() == self.values@.len()
        &&& strictly_sorted(self.keys_view())
    }

    /// Well-formed maps with the same content have the same keys and
    /// values in the same order.
    pub proof fn lemma_view_determines(a: OptionsMap, b: OptionsMap)
        requires
            a.wf(),
            b.wf(),
            a.view() == b.view(),
        ensures
            a.keys_view() == b.keys_view(),
            a.values_view() == b.values_view(),
    {
        assert forall|x: Seq<char>| a.keys_view().contains(x) <==> b.keys_view().contains(x) by {
            assert(a.view().dom().contains(x) == a.keys_view().contains(x));
            assert(b.view().dom().contains(x) == b.keys_view().contains(x));
        }
        lemma_sorted_unique(a.keys_view(), b.keys_view());
        let k = a.keys_view();
        assert forall|i: int| 0 <= i < a.values_view().len() implies a.values_view()[i] == b.values_view()[i] by {
            lemma_index_of_sorted(k, i);
            assert(a.view()[k[i]] == a.values_view()[i]);
            assert(b.view()[k[i]] == b.values_view()[i]);
        }
        assert(a.values_view() =~= b.values_view());
    }

    /// The map as a mathematical map.
    pub open spec fn view(&self) -> Map<Seq<char>, Seq<char>> {
        Map::new(
            |k: Seq<char>| self.keys_view().contains(k),
            |k: Seq<char>| self.values_view()[self.keys_view().index_of(k)],
        )
    }

    pub fn new() -> (m: Self)
        ensures
            m.wf(),
            m.keys_view() == Seq::<Seq<char>>::empty(),
            m.values_view() == Seq::<Seq<char>>::empty(),
    {
        let m = OptionsMap { keys: Vec::new(), values: Vec::new() };
        assert(m.keys_view() =~= Seq::<Seq<char>>::empty());
        assert(m.values_view() =~= Seq::<Seq<char>>::empty());
        m
    }

    pub fn len(&self) -> (n: usize)
        requires
            self.wf(),
        ensures
            n == self.keys_view().len(),
            n == self.values_view().len(),
    {
        self.keys.len()
    }

    /// The key and value at position `i` of the key order.
    pub fn entry(&self, i: usize) -> (r: (&str, &str))
        requires
            self.wf(),
            i < self.keys_view().len(),
        ensures
            r.0@ == self.keys_view()[i as int],
            r.1@ == self.values_view()[i as int],
    {
        (self.keys[i].as_str(), self.values[i].as_str())
    }

    /// The value of `key`, if the map has it.
    pub fn get(&self, key: &str) -> (r: Option<&str>)
        requires
            self.wf(),
        ensures
            r is Some <==> self.keys_view().contains(key@),
            r matches Some(v) ==> exists|i: int| 0 <= i < self.keys_view().len()
                && self.keys_view()[i] == key@ && self.values_view()[i] == v@,
            r matches Some(v) ==> self.view()[key@] == v@,
    {
        let (i, found) = find_slot(&self.keys, key);
        if found {
            proof {
                assert(self.keys_view()[i as int] == key@);
                lemma_index_of_sorted(self.keys_view(), i as int);
            }
            Some(self.values[i].as_str())
        } else {
            proof {
                if self.keys_view().contains(key@) {
                    let j = choose|j: int| 0 <= j < self.keys_view().len() && self.keys_view()[j] == key@;
                    assert(self.keys@[j]@ == key@);
                }
            }
            None
        }
    }

    pub fn contains_key(&self, key: &str) -> (r: bool)
        requires
            self.wf(),
        ensures
            r == self.keys_view().contains(key@),
    {
        self.get(key).is_some()
    }

    /// Sets the value of `key`, keeping the keys in order.
    pub fn insert(&mut self, key: &str, value: &str)
        requires
            old(self).wf(),
        ensures
            final(self).wf(),
            final(self).view() == old(self).view().insert(key@, value@),
    {
        let ghost ok = self.keys_view();
        let ghost ov = self.values_view();
        let (i, found) = find_slot(&self.keys, key);
        if found {
            self.values.set(i, owned(value));
            proof {
                assert(self.keys_view() == ok);
                assert(self.values_view() =~= ov.update(i as int, value@));
                assert(ok[i as int] == key@);
                assert forall|k: Seq<char>| #![auto] self.view().dom().contains(k) implies
                    self.view()[k] == old(self).view().insert(key@, value@)[k] by {
                    let j = ok.index_of(k);
                    lemma_index_of_sorted(ok, i as int);
                    if k != key@ {
                        assert(j != i);
                    }
                }
                assert(self.view().dom() =~= old(self).view().insert(key@, value@).dom());
                assert(self.view() =~= old(self).view().insert(key@, value@));
            }
        } else {
            proof {
                assert forall|j: int| 0 <= j < i implies chars_less(#[trigger] ok[j], key@) by {
                    assert(ok[j] == self.keys@[j]@);
                }
                assert forall|j: int| i <= j < ok.len() implies chars_less(key@, #[trigger] ok[j]) by {
                    assert(ok[j] == self.keys@[j]@);
                }
                lemma_sorted_insert(ok, i as int, key@);
            }
            self.keys.insert(i, owned(key));
            self.values.insert(i, owned(value));
            proof {
                let nk = self.keys_view();
                let nv = self.values_view();
                assert(nk =~= ok.insert(i as int, key@));
                assert(nv =~= ov.insert(i as int, value@));
                assert(!ok.contains(key@)) by {
                    if ok.contains(key@) {
                        let j = choose|j: int| 0 <= j < ok.len() && ok[j] == key@;
                        assert(self.keys@[if j < i { j } else { j + 1 }]@ == key@);
                    }
                }
                assert forall|k: Seq<char>| #![auto] self.view().dom().contains(k)
                    <==> old(self).view().insert(key@, value@).dom().contains(k) by {
                    if nk.contains(k) {
                        let j = choose|j: int| 0 <= j < nk.len() && nk[j] == k;
                        if j < i {
                            assert(ok[j] == k);
                        } else if j > i {
                            assert(ok[j - 1] == k);
                        }
                    }
                    if ok.contains(k) {
                        let j = choose|j: int| 0 <= j < ok.len() && ok[j] == k;
                        if j < i {
                            assert(nk[j] == k);
                        } else {
                            assert(nk[j + 1] == k);
                        }
                    }
                    if k == key@ {
                        assert(nk[i as int] == k);
                    }
                }
                assert forall|k: Seq<char>| #![auto] self.view().dom().contains(k) implies
                    self.view()[k] == old(self).view().insert(key@, value@)[k] by {
                    let j = nk.index_of(k);
                    lemma_index_of_sorted(nk, j);
                    if k == key@ {
                        assert(nk[i as int] == k);
                        lemma_index_of_sorted(nk, i as int);
                    } else {
                        let oj = ok.index_of(k);
                        lemma_index_of_sorted(ok, oj);
                        if oj < i {
                            assert(nk[oj] == k);
                            lemma_index_of_sorted(nk, oj);
                        } else {
                            assert(nk[oj + 1] == k);
                            lemma_index_of_sorted(nk, oj + 1);
                        }
                    }
                }
                assert(self.view().dom() =~= old(self).view().insert(key@, value@).dom());
                assert(self.view() =~= old(self).view().insert(key@, value@));
            }
        }
    }

    /// A map with the same entries.
    pub fn copy(&self) -> (r: Self)
        requires
            self.wf(),
        ensures
            r.wf(),
            r.keys_view() == self.keys_view(),
            r.values_view() == self.values_view(),
    {
        let mut keys: Vec<String> = Vec::new();
        let mut values: Vec<String> = Vec::new();
        let mut i: usize = 0;
        while i < self.keys.len()
            invariant
                self.wf(),
                i <= self.keys@.len(),
                keys@.len() == i,
                values@.len() == i,
                forall|j: int| 0 <= j < i ==> #[trigger] keys@[j]@ == self.keys@[j]@,
                forall|j: int| 0 <= j < i ==> #[trigger] values@[j]@ == self.values@[j]@,
            decreases self.keys@.len() - i,
        {
            keys.push(owned(self.keys[i].as_str()));
            values.push(owned(self.values[i].as_str()));
            i = i + 1;
        }
        let r = OptionsMap { keys, values };
        assert(r.keys_view() =~= self.keys_view());
        assert(r.values_view() =~= self.values_view());
        r
    }

    /// Whether the two maps hold the same entries.
    pub fn same_entries(&self, other: &OptionsMap) -> (r: bool)
        requires
            self.wf(),
            other.wf(),
        ensures
            r == (self.keys_view() == other.keys_view() && self.values_view() == other.values_view()),
            r ==> self.view() == other.view(),
    {
        if self.keys.len() != other.keys.len() {
            assert(self.keys_view().len() != other.keys_view().len());
            return false;
        }
        let mut i: usize = 0;
        while i < self.keys.len()
            invariant
                self.wf(),
                other.wf(),
                self.keys@.len() == other.keys@.len(),
                i <= self.keys@.len(),
                forall|j: int| 0 <= j < i ==> self.keys_view()[j] == other.keys_view()[j]
                    && self.values_view()[j] == other.values_view()[j],
            decreases self.keys@.len() - i,
        {
            if !crate::text::string_eq(&self.keys[i], &other.keys[i])
                || !crate::text::string_eq(&self.values[i], &other.values[i]) {
                assert(self.keys_view()[i as int] == self.keys@[i as int]@);
                assert(other.keys_view()[i as int] == other.keys@[i as int]@);
                assert(self.values_view()[i as int] == self.values@[i as int]@);
                assert(other.values_view()[i as int] == other.values@[i as int]@);
                return false;
            }
            i = i + 1;
        }
        assert(self.keys_view() =~= other.keys_view());
        assert(self.values_view() =~= other.values_view());
        true
    }
}

/// In a strictly sorted sequence, a string's first index is where it stands.
pub proof fn lemma_index_of_sorted(s: Seq<Seq<char>>, i: int)
    requires
        strictly_sorted(s),
        0 <= i < s.len(),
    ensures
        s.contains(s[i]),
        s.index_of(s[i]) == i,
{
    assert(s.contains(s[i]));
    let j = s.index_of(s[i]);
    lemma_sorted_distinct(s, i, j);
}


/// Two strictly sorted sequences that hold the same strings are equal.
pub proof fn lemma_sorted_unique(s: Seq<Seq<char>>, t: Seq<Seq<char>>)
    requires
        strictly_sorted(s),
        strictly_sorted(t),
        forall|x: Seq<char>| s.contains(x) <==> t.contains(x),
    ensures
        s == t,
    decreases s.len(),
{
    if s.len() == 0 {
        if t.len() > 0 {
            assert(t.contains(t[0]));
        }
        assert(s =~= t);
    } else if t.len() == 0 {
        assert(s.contains(s[0]));
    } else {
        assert(s.contains(s[0]));
        assert(t.contains(t[0]));
        let k = choose|k: int| 0 <= k < t.len() && t[k] == s[0];
        let m = choose|m: int| 0 <= m < s.len() && s[m] == t[0];
        if k > 0 {
            assert(chars_less(t[0], t[k]));
            if m > 0 {
                assert(chars_less(s[0], s[m]));
                lemma_chars_less_order(s[0], t[0], s[0]);
            } else {
                lemma_chars_less_order(s[0], s[0], s[0]);
            }
        }
        assert(s[0] == t[0]);
        let s1 = s.drop_first();
        let t1 = t.drop_first();
        assert forall|x: Seq<char>| s1.contains(x) <==> t1.contains(x) by {
            if s1.contains(x) {
                let i = choose|i: int| 0 <= i < s1.len() && s1[i] == x;
                assert(s.contains(x)) by { assert(s[i + 1] == x); }
                let j = choose|j: int| 0 <= j < t.len() && t[j] == x;
                if j == 0 {
                    assert(chars_less(s[0], s[i + 1]));
                    lemma_chars_less_order(s[0], s[0], s[0]);
                }
                assert(t1[j - 1] == x);
            }
            if t1.contains(x) {
                let i = choose|i: int| 0 <= i < t1.len() && t1[i] == x;
                assert(t.contains(x)) by { assert(t[i + 1] == x); }
                let j = choose|j: int| 0 <= j < s.len() && s[j] == x;
                if j == 0 {
                    assert(chars_less(t[0], t[i + 1]));
                    lemma_chars_less_order(t[0], t[0], t[0]);
                }
                assert(s1[j - 1] == x);
            }
        }
        lemma_sorted_unique(s1, t1);
        assert(s =~= seq![s[0]] + s1);
        assert(t =~= seq![t[0]] + t1);
    }
}

} // verus!
