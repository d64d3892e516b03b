use vstd::prelude::*;
use crate::error::{Error, Result};
use crate::text::{trim_bounds, lemma_trim_bounds_unique, chars_of, push_char, str_eq, string_from_char_range, trim_range, trimmed, joined, join_strings};
use crate::ordered::{SortedStrings, strictly_sorted, str_views, lemma_sorted_unique};

verus! {

/// A map from strings to ids kept as a list of distinct keys in insertion
/// order; it answers lookups as a hash map with the same history would.
#[derive(Debug, Clone)]
pub struct StrIdMap {
    entries: Vec<(String, i32)>,
}

impl StrIdMap {
    /// A map with the same entries.
    pub fn copy(&self) -> (r: Self)
        requires
            self.keys_distinct(),
        ensures
            r.keys_distinct(),
            r.view() == self.view(),
    {
        let mut entries: Vec<(String, i32)> = Vec::new();
        let mut i: usize = 0;
        while i < self.entries.len()
            invariant
                i <= self.entries@.len(),
                entries@.len() == i,
                forall|j: int| 0 <= j < i ==> #[trigger] entries@[j].0@ == self.entries@[j].0@ && entries@[j].1 == self.entries@[j].1,
            decreases self.entries@.len() - i,
        {
            let key = self.entries[i].0.as_str().to_owned();
            entries.push((key, self.entries[i].1));
            i = i + 1;
        }
        let r = StrIdMap { entries };
        proof {
            assert forall|a: int, b: int|
                0 <= a < r.entries@.len() && 0 <= b < r.entries@.len() && a != b
                    implies #[trigger] r.entries@[a].0@ != #[trigger] r.entries@[b].0@ by {
                assert(self.entries@[a].0@ != self.entries@[b].0@);
            }
            assert forall|k: Seq<char>| r.has_key(k) == self.has_key(k) by {
                if r.has_key(k) {
                    let a = choose|a: int| 0 <= a < r.entries@.len() && #[trigger] r.entries@[a].0@ == k;
                    assert(self.entries@[a].0@ == k);
                }
                if self.has_key(k) {
                    let a = choose|a: int| 0 <= a < self.entries@.len() && #[trigger] self.entries@[a].0@ == k;
                    assert(r.entries@[a].0@ == k);
                }
            }
            assert forall|k: Seq<char>| r.has_key(k) implies r.value_of(k) == self.value_of(k) by {
                let a = choose|a: int| 0 <= a < r.entries@.len() && #[trigger] r.entries@[a].0@ == k;
                let b = choose|b: int| 0 <= b < self.entries@.len() && #[trigger] self.entries@[b].0@ == k;
                assert(r.entries@[b].0@ == k);
                if a != b {
                    assert(r.entries@[a].0@ != r.entries@[b].0@);
                }
            }
            assert(r.view() =~= self.view());
        }
        r
    }

    pub closed spec fn keys_distinct(&self) -> bool {
        forall|i: int, j: int|
            0 <= i < self.entries@.len() && 0 <= j < self.entries@.len() && i != j
                ==> #[trigger] self.entries@[i].0@ != #[trigger] self.entries@[j].0@
    }

    pub closed spec fn has_key(&self, k: Seq<char>) -> bool {
        exists|i: int| 0 <= i < self.entries@.len() && #[trigger] self.entries@[i].0@ == k
    }

    pub closed spec fn value_of(&self, k: Seq<char>) -> i32 {
        self.entries@[choose|i: int| 0 <= i < self.entries@.len() && #[trigger] self.entries@[i].0@ == k].1
    }

    /// The map as a mathematical map from keys to ids.
    pub closed spec fn view(&self) -> Map<Seq<char>, i32> {
        Map::new(|k: Seq<char>| self.has_key(k), |k: Seq<char>| self.value_of(k))
    }

    pub fn new() -> (m: Self)
        ensures
            m.keys_distinct(),
            m.view() == Map::<Seq<char>, i32>::empty(),
    {
        let m = StrIdMap { entries: Vec::new() };
        assert(m.view() =~= Map::<Seq<char>, i32>::empty());
        m
    }

    fn position(&self, key: &str) -> (r: Option<usize>)
        requires
            self.keys_distinct(),
        ensures
            r matches Some(i) ==> i < self.entries@.len() && self.entries@[i as int].0@ == key@,
            r is None ==> !self.has_key(key@),
    {
        let mut i: usize = 0;
        while i < self.entries.len()
            invariant
                i <= self.entries@.len(),
                forall|j: int| 0 <= j < i ==> #[trigger] self.entries@[j].0@ != key@,
            decreases self.entries@.len() - i,
        {
            if str_eq(self.entries[i].0.as_str(), key) {
                return Some(i);
            }
            i = i + 1;
        }
        None
    }

    pub fn get(&self, key: &str) -> (r: Option<i32>)
        requires
            self.keys_distinct(),
        ensures
            r == (if self.view().contains_key(key@) { Some(self.view()[key@]) } else { None::<i32> }),
    {
        match self.position(key) {
            Some(i) => {
                proof {
                    let c = choose|j: int| 0 <= j < self.entries@.len() && #[trigger] self.entries@[j].0@ == key@;
                    assert(self.entries@[i as int].0@ == key@);
                    assert(c == i);
                }
                Some(self.entries[i].1)
            },
            None => None,
        }
    }

    pub fn insert(&mut self, key: &str, value: i32)
        requires
            old(self).keys_distinct(),
        ensures
            final(self).keys_distinct(),
            final(self).view() == old(self).view().insert(key@, value),
    {
        let ghost old_map = self.view();
        match self.position(key) {
            Some(i) => {
                let k = self.entries[i].0.clone();
                self.entries.set(i, (k, value));
                proof {
                    assert(forall|j: int| 0 <= j < self.entries@.len() ==> #[trigger] self.entries@[j].0@ == old(self).entries@[j].0@);
                    assert(old(self).has_key(key@));
                    assert(self.entries@[i as int].0@ == key@);
                    assert(self.has_key(key@));
                    assert forall|q: Seq<char>| #[trigger] self.view().contains_key(q) == old_map.insert(key@, value).contains_key(q) by {
                        if q != key@ && old_map.contains_key(q) {
                            let j = choose|j: int| 0 <= j < old(self).entries@.len() && #[trigger] old(self).entries@[j].0@ == q;
                            assert(self.entries@[j].0@ == q);
                        }
                        if self.has_key(q) && q != key@ {
                            let j = choose|j: int| 0 <= j < self.entries@.len() && #[trigger] self.entries@[j].0@ == q;
                            assert(old(self).entries@[j].0@ == q);
                        }
                    }
                    assert forall|q: Seq<char>| self.view().contains_key(q) implies #[trigger] self.view()[q] == old_map.insert(key@, value)[q] by {
                        let j = choose|j: int| 0 <= j < self.entries@.len() && #[trigger] self.entries@[j].0@ == q;
                        if q == key@ {
                            assert(j == i);
                        } else {
                            let j2 = choose|j: int| 0 <= j < old(self).entries@.len() && #[trigger] old(self).entries@[j].0@ == q;
                            assert(self.entries@[j2].0@ == q);
                            assert(j == j2);
                        }
                    }
                    assert(self.view() =~= old_map.insert(key@, value));
                }
            },
            None => {
                self.entries.push((key.to_owned(), value));
                proof {
                    let n = old(self).entries@.len();
                    assert forall|q: Seq<char>| #[trigger] self.view().contains_key(q) == old_map.insert(key@, value).contains_key(q) by {
                        if q != key@ && old_map.contains_key(q) {
                            let j = choose|j: int| 0 <= j < old(self).entries@.len() && #[trigger] old(self).entries@[j].0@ == q;
                            assert(self.entries@[j].0@ == q);
                        }
                        if q == key@ {
                            assert(self.entries@[n as int].0@ == q);
                        }
                        if self.has_key(q) && q != key@ {
                            let j = choose|j: int| 0 <= j < self.entries@.len() && #[trigger] self.entries@[j].0@ == q;
                            assert(old(self).entries@[j].0@ == q);
                        }
                    }
                    assert forall|q: Seq<char>| self.view().contains_key(q) implies #[trigger] self.view()[q] == old_map.insert(key@, value)[q] by {
                        let j = choose|j: int| 0 <= j < self.entries@.len() && #[trigger] self.entries@[j].0@ == q;
                        if q == key@ {
                            assert(self.entries@[n as int].0@ == q);
                            assert(j == n);
                        } else {
                            let j2 = choose|j: int| 0 <= j < old(self).entries@.len() && #[trigger] old(self).entries@[j].0@ == q;
                            assert(self.entries@[j2].0@ == q);
                            assert(j == j2);
                        }
                    }
                    assert(self.view() =~= old_map.insert(key@, value));
                }
            },
        }
    }

    pub fn remove(&mut self, key: &str)
        requires
            old(self).keys_distinct(),
        ensures
            final(self).keys_distinct(),
            final(self).view() == old(self).view().remove(key@),
    {
        let ghost old_map = self.view();
        match self.position(key) {
            Some(i) => {
                let ghost old_entries = self.entries@;
                self.entries.remove(i);
                proof {
                    assert(forall|j: int| 0 <= j < i ==> self.entries@[j] == old_entries[j]);
                    assert(forall|j: int| i <= j < self.entries@.len() ==> self.entries@[j] == old_entries[j + 1]);
                    assert forall|a: int, b: int|
                        0 <= a < self.entries@.len() && 0 <= b < self.entries@.len() && a != b
                        implies #[trigger] self.entries@[a].0@ != #[trigger] self.entries@[b].0@ by {
                        let oa = if a < i { a } else { a + 1 };
                        let ob = if b < i { b } else { b + 1 };
                        assert(old_entries[oa].0@ != old_entries[ob].0@);
                    }
                    assert forall|q: Seq<char>| #[trigger] self.view().contains_key(q) == old_map.remove(key@).contains_key(q) by {
                        if q != key@ && old_map.contains_key(q) {
                            let j = choose|j: int| 0 <= j < old_entries.len() && #[trigger] old_entries[j].0@ == q;
                            assert(j != i);
                            if j < i {
                                assert(self.entries@[j].0@ == q);
                            } else {
                                assert(self.entries@[j - 1].0@ == q);
                            }
                        }
                        if self.has_key(q) {
                            let j = choose|j: int| 0 <= j < self.entries@.len() && #[trigger] self.entries@[j].0@ == q;
                            let oj = if j < i { j } else { j + 1 };
                            assert(old_entries[oj].0@ == q);
                            assert(oj != i);
                        }
                    }
                    assert forall|q: Seq<char>| self.view().contains_key(q) implies #[trigger] self.view()[q] == old_map.remove(key@)[q] by {
                        let j = choose|j: int| 0 <= j < self.entries@.len() && #[trigger] self.entries@[j].0@ == q;
                        let oj = if j < i { j } else { j + 1 };
                        assert(old_entries[oj].0@ == q);
                        let j2 = choose|j: int| 0 <= j < old_entries.len() && #[trigger] old_entries[j].0@ == q;
                        assert(j2 == oj);
                    }
                    assert(self.view() =~= old_map.remove(key@));
                }
            },
            None => {
                assert(self.view() =~= old_map.remove(key@));
            },
        }
    }
}

/// The set of labels of one labels entry, in the order they are stored.
#[derive(Debug, Clone)]
pub struct LabelSet {
    items: Vec<String>,
}

impl LabelSet {
    pub closed spec fn view(&self) -> Seq<Seq<char>> {
        self.items@.map_values(|s: String| s@)
    }

    /// A set with the same labels in the same order.
    pub fn copy(&self) -> (r: Self)
        ensures
            r.view() == self.view(),
    {
        let items = crate::text::copy_strings(self.items.as_slice());
        LabelSet { items }
    }

    pub fn empty() -> (r: Self)
        ensures
            r.view() == Seq::<Seq<char>>::empty(),
    {
        let r = LabelSet { items: Vec::new() };
        assert(r.view() =~= Seq::<Seq<char>>::empty());
        r
    }

    pub fn contains(&self, label: &str) -> (r: bool)
        ensures
            r == self.view().contains(label@),
    {
        let mut i: usize = 0;
        while i < self.items.len()
            invariant
                i <= self.items@.len(),
                forall|j: int| 0 <= j < i ==> #[trigger] self.items@[j]@ != label@,
            decreases self.items@.len() - i,
        {
            if str_eq(self.items[i].as_str(), label) {
                assert(self.view()[i as int] == label@);
                return true;
            }
            i = i + 1;
        }
        proof {
            if self.view().contains(label@) {
                let j = choose|j: int| 0 <= j < self.view().len() && self.view()[j] == label@;
                assert(self.items@[j]@ == label@);
            }
        }
        false
    }

    pub fn len(&self) -> (n: usize)
        ensures
            n == self.view().len(),
    {
        self.items.len()
    }

    pub fn is_empty(&self) -> (r: bool)
        ensures
            r == (self.view().len() == 0),
    {
        self.items.len() == 0
    }

    /// The labels, in order.
    pub fn as_slice(&self) -> (r: &[String])
        ensures
            r@.map_values(|s: String| s@) == self.view(),
    {
        self.items.as_slice()
    }
}

/// The characters `str::trim` keeps, or `_` when nothing is left.
pub open spec fn normalized_id_value(s: Seq<char>) -> Seq<char> {
    if trimmed(s).len() == 0 { seq!['_'] } else { trimmed(s) }
}

/// `value` trimmed, or `_` when it holds only whitespace.
pub fn normalize_empty_id_value(value: &str) -> (r: String)
    ensures
        r@ == normalized_id_value(value@),
{
    let chars = chars_of(value);
    let (a, b) = trim_range(chars.as_slice());
    if a == b {
        let r = "_".to_owned();
        proof { reveal_strlit("_"); }
        assert(r@ =~= seq!['_']);
        r
    } else {
        string_from_char_range(chars.as_slice(), a, b)
    }
}

/// The pieces of `s` between the `sep` separators, in order (as `str::split`
/// with a character).
pub open spec fn split_char(s: Seq<char>, sep: char) -> Seq<Seq<char>>
    decreases s.len(),
{
    if s.len() == 0 {
        seq![Seq::<char>::empty()]
    } else {
        let rest = split_char(s.drop_last(), sep);
        if s.last() == sep {
            rest.push(Seq::<char>::empty())
        } else {
            rest.update(rest.len() - 1, rest.last().push(s.last()))
        }
    }
}

pub proof fn lemma_split_char_nonempty(s: Seq<char>, sep: char)
    ensures
        split_char(s, sep).len() >= 1,
    decreases s.len(),
{
    if s.len() > 0 {
        lemma_split_char_nonempty(s.drop_last(), sep);
    }
}

/// Splits on `sep` (as `str::split`), one `String` per piece.
pub fn split_on_char(s: &[char], sep: char) -> (r: Vec<String>)
    ensures
        r@.map_values(|p: String| p@) == split_char(s@, sep),
{
    let mut r: Vec<String> = Vec::new();
    r.push(String::new());
    let mut i: usize = 0;
    while i < s.len()
        invariant
            i <= s@.len(),
            r@.len() >= 1,
            r@.map_values(|p: String| p@) == split_char(s@.take(i as int), sep),
        decreases s@.len() - i,
    {
        let ghost prev = r@.map_values(|p: String| p@);
        proof {
            assert(s@.take(i + 1).drop_last() == s@.take(i as int));
            lemma_split_char_nonempty(s@.take(i as int), sep);
        }
        if s[i] == sep {
            r.push(String::new());
            assert(r@.map_values(|p: String| p@) =~= prev.push(Seq::<char>::empty()));
        } else {
            let last = r.len() - 1;
            let mut piece = r[last].clone();
            push_char(&mut piece, s[i]);
            r.set(last, piece);
            assert(r@.map_values(|p: String| p@) =~= prev.update(prev.len() - 1, prev.last().push(s@[i as int])));
        }
        i = i + 1;
    }
    assert(s@.take(s@.len() as int) == s@);
    r
}

/// The labels set of a stored labels string: empty for `_`, otherwise the
/// pieces between `|` separators.
pub open spec fn labels_set_of(labels: Seq<char>) -> Seq<Seq<char>> {
    if labels == seq!['_'] { Seq::empty() } else { split_char(labels, '|') }
}

pub fn labels_to_set(labels: &str) -> (r: LabelSet)
    ensures
        r.view() == labels_set_of(labels@),
{
    proof { reveal_strlit("_"); }
    assert("_"@ =~= seq!['_']);
    if str_eq(labels, "_") {
        LabelSet::empty()
    } else {
        let chars = chars_of(labels);
        let items = split_on_char(chars.as_slice(), '|');
        LabelSet { items }
    }
}

/// `t` is one of the labels written in the labels string `n`: a piece
/// between `|` separators, trimmed, and not empty.
pub open spec fn label_piece(n: Seq<char>, t: Seq<char>) -> bool {
    &&& t.len() > 0
    &&& exists|j: int| 0 <= j < split_char(n, '|').len() && #[trigger] trimmed(split_char(n, '|')[j]) == t
}

/// `s` holds the labels written in `n`, each once, in code point order.
pub open spec fn sorts_label_pieces(n: Seq<char>, s: Seq<Seq<char>>) -> bool {
    &&& strictly_sorted(s)
    &&& forall|t: Seq<char>| s.contains(t) <==> label_piece(n, t)
}

/// The canonical form of a labels string: its labels trimmed, sorted,
/// without repeats and joined with `|`; `_` when there are none.
pub open spec fn canonical_labels(labels: Seq<char>) -> Seq<char> {
    let n = normalized_id_value(labels);
    if n == seq!['_'] {
        seq!['_']
    } else {
        let s = choose|s: Seq<Seq<char>>| sorts_label_pieces(n, s);
        if s.len() == 0 { seq!['_'] } else { joined(s, seq!['|']) }
    }
}

/// The labels string in canonical form: trimmed labels, sorted, without
/// repeats, joined with `|`, or `_` when there are none.
pub fn canonicalize_labels(labels: &str) -> (r: String)
    ensures
        r@ == canonical_labels(labels@),
{
    proof {
        reveal_strlit("_");
        reveal_strlit("|");
    }
    assert("_"@ =~= seq!['_']);
    assert("|"@ =~= seq!['|']);
    let normalized = normalize_empty_id_value(labels);
    if str_eq(normalized.as_str(), "_") {
        return "_".to_owned();
    }
    let chars = chars_of(normalized.as_str());
    let pieces = split_on_char(chars.as_slice(), '|');
    let ghost n = normalized@;
    let ghost pv = pieces@.map_values(|p: String| p@);
    let mut sorted = SortedStrings::new();
    let mut i: usize = 0;
    while i < pieces.len()
        invariant
            i <= pieces@.len(),
            pv == pieces@.map_values(|p: String| p@),
            pv == split_char(n, '|'),
            sorted.wf(),
            forall|t: Seq<char>| sorted.view().contains(t) <==>
                (t.len() > 0 && exists|j: int| 0 <= j < i && #[trigger] trimmed(pv[j]) == t),
        decreases pieces@.len() - i,
    {
        let pc = chars_of(pieces[i].as_str());
        let (a, b) = trim_range(pc.as_slice());
        let ghost before = sorted.view();
        assert(pv[i as int] == pieces@[i as int]@);
        if a < b {
            let t = string_from_char_range(pc.as_slice(), a, b);
            sorted.insert(t.as_str());
            assert forall|x: Seq<char>| sorted.view().contains(x) <==>
                (x.len() > 0 && exists|j: int| 0 <= j < i + 1 && #[trigger] trimmed(pv[j]) == x) by {
                if sorted.view().contains(x) {
                    if x != t@ {
                        assert(before.contains(x));
                    }
                }
                if x.len() > 0 && exists|j: int| 0 <= j < i + 1 && #[trigger] trimmed(pv[j]) == x {
                    let j = choose|j: int| 0 <= j < i + 1 && #[trigger] trimmed(pv[j]) == x;
                    if j < i {
                        assert(before.contains(x));
                    }
                }
            }
        } else {
            assert forall|x: Seq<char>| sorted.view().contains(x) <==>
                (x.len() > 0 && exists|j: int| 0 <= j < i + 1 && #[trigger] trimmed(pv[j]) == x) by {
                if x.len() > 0 && exists|j: int| 0 <= j < i + 1 && #[trigger] trimmed(pv[j]) == x {
                    let j = choose|j: int| 0 <= j < i + 1 && #[trigger] trimmed(pv[j]) == x;
                    if j == i {
                        assert(trimmed(pv[j]).len() == 0);
                    }
                }
            }
        }
        i = i + 1;
    }
    let ghost sv = sorted.view();
    let parts = sorted.into_vec();
    proof {
        assert(sorts_label_pieces(n, sv)) by {
            assert forall|t: Seq<char>| sv.contains(t) <==> label_piece(n, t) by {
                if sv.contains(t) {
                    let j = choose|j: int| 0 <= j < pieces@.len() && #[trigger] trimmed(pv[j]) == t;
                    assert(trimmed(split_char(n, '|')[j]) == t);
                }
                if label_piece(n, t) {
                    let j = choose|j: int| 0 <= j < split_char(n, '|').len() && #[trigger] trimmed(split_char(n, '|')[j]) == t;
                    assert(trimmed(pv[j]) == t);
                }
            }
        }
        let c = choose|s: Seq<Seq<char>>| sorts_label_pieces(n, s);
        assert forall|x: Seq<char>| c.contains(x) <==> sv.contains(x) by {}
        lemma_sorted_unique(c, sv);
        assert(parts@.map_values(|p: String| p@) == sv);
    }
    if parts.len() == 0 {
        "_".to_owned()
    } else {
        join_strings(parts.as_slice(), "|")
    }
}

/// Two resolvers with the same tables.
pub open spec fn same_resolver(a: IdResolver, b: IdResolver) -> bool {
    &&& a.wf() == b.wf()
    &&& a.tag_strings() == b.tag_strings()
    &&& a.name_strings() == b.name_strings()
    &&& a.label_strings() == b.label_strings()
    &&& a.label_sets() == b.label_sets()
    &&& a.tag_map() == b.tag_map()
    &&& a.name_map() == b.name_map()
    &&& a.label_map() == b.label_map()
    &&& a.spec_tagset_id() == b.spec_tagset_id()
    &&& a.tags_len() == b.tags_len()
    &&& a.names_len() == b.names_len()
    &&& a.labels_len() == b.labels_len()
    &&& forall|id: int| #[trigger] a.has_tag(id) == b.has_tag(id)
    &&& forall|id: int| a.has_tag(id) ==> #[trigger] a.spec_tag(id) == b.spec_tag(id)
    &&& forall|id: int| #[trigger] a.has_name(id) == b.has_name(id)
    &&& forall|id: int| #[trigger] a.has_labels(id) == b.has_labels(id)
}

/// `s` with `v` at index `i`, first grown with empty strings up to `i`
/// when it is shorter.
pub open spec fn padded_update(s: Seq<Seq<char>>, i: int, v: Seq<char>) -> Seq<Seq<char>> {
    if i < s.len() {
        s.update(i, v)
    } else {
        (s + Seq::new((i - s.len()) as nat, |_j: int| Seq::<char>::empty())).push(v)
    }
}

/// Every non-empty string of an id map sits at its id in the table.
pub open spec fn ids_resolve(map: Map<Seq<char>, i32>, strings: Seq<Seq<char>>) -> bool {
    forall|t: Seq<char>| #[trigger] map.contains_key(t) && t.len() > 0
        ==> 0 <= map[t] < strings.len() && strings[map[t] as int] == t
}

/// Resolves the numeric tag, name and labels ids of interpretations to their
/// strings and back.
#[derive(Debug, Clone)]
pub struct IdResolver {
    tagset_id: String,
    tags: Vec<String>,
    tag_ids: StrIdMap,
    names: Vec<String>,
    name_ids: StrIdMap,
    labels: Vec<String>,
    label_ids: StrIdMap,
    labels_as_sets: Vec<LabelSet>,
}

impl IdResolver {
    /// The internal consistency every resolver keeps: the id maps have
    /// distinct keys and the label sets run parallel to the labels strings.
    pub closed spec fn wf(&self) -> bool {
        &&& self.tag_ids.keys_distinct()
        &&& self.name_ids.keys_distinct()
        &&& self.label_ids.keys_distinct()
        &&& self.labels_as_sets@.len() == self.labels@.len()
        &&& ids_resolve(self.tag_ids.view(), self.tag_strings())
        &&& ids_resolve(self.name_ids.view(), self.name_strings())
        &&& ids_resolve(self.label_ids.view(), self.label_strings())
    }

    /// Which ids are set, and their strings, are read off the string
    /// tables.
    pub proof fn lemma_tables(&self)
        ensures
            forall|j: int| #[trigger] self.has_tag(j) == (0 <= j < self.tag_strings().len()),
            forall|j: int| 0 <= j < self.tag_strings().len() ==> #[trigger] self.spec_tag(j) == self.tag_strings()[j],
            forall|j: int| #[trigger] self.has_name(j) == (0 <= j < self.name_strings().len()),
            forall|j: int| 0 <= j < self.name_strings().len() ==> #[trigger] self.spec_name(j) == self.name_strings()[j],
            forall|j: int| #[trigger] self.has_labels(j) == (0 <= j < self.label_strings().len()),
            forall|j: int| 0 <= j < self.label_strings().len() ==> #[trigger] self.spec_labels(j) == self.label_strings()[j],
            self.tags_len() == self.tag_strings().len(),
            self.names_len() == self.name_strings().len(),
            self.labels_len() == self.label_strings().len(),
    {
    }

    pub closed spec fn has_tag(&self, id: int) -> bool {
        0 <= id < self.tags@.len()
    }

    pub closed spec fn spec_tag(&self, id: int) -> Seq<char> {
        self.tags@[id]@
    }

    pub closed spec fn has_name(&self, id: int) -> bool {
        0 <= id < self.names@.len()
    }

    pub closed spec fn spec_name(&self, id: int) -> Seq<char> {
        self.names@[id]@
    }

    pub closed spec fn has_labels(&self, id: int) -> bool {
        0 <= id < self.labels@.len()
    }

    pub closed spec fn spec_labels(&self, id: int) -> Seq<char> {
        self.labels@[id]@
    }

    pub closed spec fn tag_map(&self) -> Map<Seq<char>, i32> {
        self.tag_ids.view()
    }

    pub closed spec fn name_map(&self) -> Map<Seq<char>, i32> {
        self.name_ids.view()
    }

    pub closed spec fn label_map(&self) -> Map<Seq<char>, i32> {
        self.label_ids.view()
    }

    pub closed spec fn tag_strings(&self) -> Seq<Seq<char>> {
        self.tags@.map_values(|t: String| t@)
    }

    /// A non-empty tag, name or labels string that has an id resolves back
    /// to itself: asking for the string of that id gives the same string.
    pub proof fn law_ids_resolve(&self, t: Seq<char>)
        requires
            self.wf(),
            t.len() > 0,
        ensures
            self.tag_map().contains_key(t) ==> self.has_tag(self.tag_map()[t] as int)
                && self.spec_tag(self.tag_map()[t] as int) == t,
            self.name_map().contains_key(t) ==> self.has_name(self.name_map()[t] as int)
                && self.spec_name(self.name_map()[t] as int) == t,
            self.label_map().contains_key(t) ==> self.has_labels(self.label_map()[t] as int)
                && self.spec_labels(self.label_map()[t] as int) == t,
    {
        if self.tag_map().contains_key(t) {
            assert(self.tag_strings()[self.tag_map()[t] as int] == t);
        }
        if self.name_map().contains_key(t) {
            assert(self.name_strings()[self.name_map()[t] as int] == t);
        }
        if self.label_map().contains_key(t) {
            assert(self.label_strings()[self.label_map()[t] as int] == t);
        }
    }

    /// The tag table as a sequence: one string per id.
    pub proof fn lemma_tag_strings(&self)
        ensures
            self.tag_strings().len() == self.tags_len(),
            forall|i: int| 0 <= i < self.tags_len() ==> #[trigger] self.tag_strings()[i] == self.spec_tag(i),
            forall|i: int| #[trigger] self.has_tag(i) <==> 0 <= i < self.tags_len(),
    {
    }

    pub closed spec fn name_strings(&self) -> Seq<Seq<char>> {
        self.names@.map_values(|t: String| t@)
    }

    pub closed spec fn label_strings(&self) -> Seq<Seq<char>> {
        self.labels@.map_values(|t: String| t@)
    }

    pub closed spec fn label_sets(&self) -> Seq<Seq<Seq<char>>> {
        self.labels_as_sets@.map_values(|t: LabelSet| t.view())
    }

    pub closed spec fn tags_len(&self) -> nat {
        self.tags@.len()
    }

    pub closed spec fn names_len(&self) -> nat {
        self.names@.len()
    }

    pub closed spec fn labels_len(&self) -> nat {
        self.labels@.len()
    }

    pub closed spec fn spec_tagset_id(&self) -> Seq<char> {
        self.tagset_id@
    }

    /// Some resolver, for a lexicon that has none.
    pub closed spec fn spec_blank() -> Self {
        choose|r: IdResolver| r.wf()
    }

    /// A resolver with the same tables.
    pub fn copy(&self) -> (r: Self)
        requires
            self.wf(),
        ensures
            same_resolver(r, *self),
    {
        let mut labels_as_sets: Vec<LabelSet> = Vec::new();
        let mut i: usize = 0;
        while i < self.labels_as_sets.len()
            invariant
                i <= self.labels_as_sets@.len(),
                labels_as_sets@.len() == i,
                forall|j: int| 0 <= j < i ==> #[trigger] labels_as_sets@[j].view() == self.labels_as_sets@[j].view(),
            decreases self.labels_as_sets@.len() - i,
        {
            labels_as_sets.push(self.labels_as_sets[i].copy());
            i = i + 1;
        }
        let r = IdResolver {
            tagset_id: self.tagset_id.as_str().to_owned(),
            tags: crate::text::copy_strings(self.tags.as_slice()),
            tag_ids: self.tag_ids.copy(),
            names: crate::text::copy_strings(self.names.as_slice()),
            name_ids: self.name_ids.copy(),
            labels: crate::text::copy_strings(self.labels.as_slice()),
            label_ids: self.label_ids.copy(),
            labels_as_sets,
        };
        proof {
            assert(r.tag_strings() =~= self.tag_strings());
            assert(r.name_strings() =~= self.name_strings());
            assert(r.label_strings() =~= self.label_strings());
            assert(r.label_sets() =~= self.label_sets());
            assert forall|id: int| r.has_tag(id) implies #[trigger] r.spec_tag(id) == self.spec_tag(id) by {
                assert(r.tag_strings()[id] == self.tag_strings()[id]);
            }
        }
        r
    }

    /// A resolver with no entries at all.
    pub fn blank() -> (r: Self)
        ensures
            r.wf(),
            r.tags_len() == 0 && r.names_len() == 0 && r.labels_len() == 0,
            r.tag_map() == Map::<Seq<char>, i32>::empty(),
            r.name_map() == Map::<Seq<char>, i32>::empty(),
            r.label_map() == Map::<Seq<char>, i32>::empty(),
            r.spec_tagset_id() == Seq::<char>::empty(),
    {
        IdResolver {
            tagset_id: String::new(),
            tags: Vec::new(),
            tag_ids: StrIdMap::new(),
            names: Vec::new(),
            name_ids: StrIdMap::new(),
            labels: Vec::new(),
            label_ids: StrIdMap::new(),
            labels_as_sets: Vec::new(),
        }
    }

    pub fn tagset_id(&self) -> (r: &str)
        ensures
            r@ == self.spec_tagset_id(),
    {
        self.tagset_id.as_str()
    }

    pub fn tag(&self, tag_id: i32) -> (r: Option<&str>)
        ensures
            r is Some <==> self.has_tag(tag_id as int),
            r matches Some(t) ==> t@ == self.spec_tag(tag_id as int),
    {
        if tag_id >= 0 && (tag_id as usize) < self.tags.len() {
            Some(self.tags[tag_id as usize].as_str())
        } else {
            None
        }
    }

    pub fn tag_id(&self, tag: &str) -> (r: Result<i32>)
        requires
            self.wf(),
        ensures
            r matches Ok(id) ==> self.tag_map().contains_key(tag@) && id == self.tag_map()[tag@],
            r is Err ==> !self.tag_map().contains_key(tag@),
            r matches Err(e) ==> e matches Error::InvalidArgument(m) && m@ == "Invalid tag: "@ + tag@,
    {
        match self.tag_ids.get(tag) {
            Some(id) => Ok(id),
            None => Err(Error::invalid_argument_about("Invalid tag: ", tag)),
        }
    }

    pub fn name(&self, name_id: i32) -> (r: Option<&str>)
        ensures
            r is Some <==> self.has_name(name_id as int),
            r matches Some(t) ==> t@ == self.spec_name(name_id as int),
    {
        if name_id >= 0 && (name_id as usize) < self.names.len() {
            Some(self.names[name_id as usize].as_str())
        } else {
            None
        }
    }

    pub fn name_id(&self, name: &str) -> (r: Result<i32>)
        requires
            self.wf(),
        ensures
            r matches Ok(id) ==> self.name_map().contains_key(name@) && id == self.name_map()[name@],
            r is Err ==> !self.name_map().contains_key(name@),
            r matches Err(e) ==> e matches Error::InvalidArgument(m) && m@ == "Invalid name: "@ + name@,
    {
        match self.name_ids.get(name) {
            Some(id) => Ok(id),
            None => Err(Error::invalid_argument_about("Invalid name: ", name)),
        }
    }

    pub fn labels_as_string(&self, labels_id: i32) -> (r: Option<&str>)
        ensures
            r is Some <==> self.has_labels(labels_id as int),
            r matches Some(t) ==> t@ == self.spec_labels(labels_id as int),
    {
        if labels_id >= 0 && (labels_id as usize) < self.labels.len() {
            Some(self.labels[labels_id as usize].as_str())
        } else {
            None
        }
    }

    pub fn labels(&self, labels_id: i32) -> (r: Option<&LabelSet>)
        requires
            self.wf(),
        ensures
            r is Some <==> self.has_labels(labels_id as int),
            r matches Some(set) ==> set.view() == self.label_sets()[labels_id as int],
    {
        if labels_id >= 0 && (labels_id as usize) < self.labels_as_sets.len() {
            Some(&self.labels_as_sets[labels_id as usize])
        } else {
            None
        }
    }

    /// The id of a labels string; the string is trimmed first, and a blank
    /// one stands for `_`.
    pub fn labels_id(&self, labels: &str) -> (r: Result<i32>)
        requires
            self.wf(),
        ensures
            r matches Ok(id) ==> self.label_map().contains_key(normalized_id_value(labels@))
                && id == self.label_map()[normalized_id_value(labels@)],
            r is Err ==> !self.label_map().contains_key(normalized_id_value(labels@)),
            r matches Err(e) ==> e matches Error::InvalidArgument(m)
                && m@ == "Invalid labels string: "@ + normalized_id_value(labels@),
    {
        let key = normalize_empty_id_value(labels);
        match self.label_ids.get(key.as_str()) {
            Some(id) => Ok(id),
            None => Err(Error::invalid_argument_about("Invalid labels string: ", key.as_str())),
        }
    }

    pub fn tags_count(&self) -> (n: usize)
        ensures
            n == self.tags_len(),
    {
        self.tags.len()
    }

    pub fn names_count(&self) -> (n: usize)
        ensures
            n == self.names_len(),
    {
        self.names.len()
    }

    pub fn labels_count(&self) -> (n: usize)
        ensures
            n == self.labels_len(),
    {
        self.labels.len()
    }

    pub fn set_tagset_id(&mut self, tagset_id: &str)
        ensures
            final(self).spec_tagset_id() == tagset_id@,
            final(self).wf() == old(self).wf(),
            final(self).tags_len() == old(self).tags_len(),
            final(self).names_len() == old(self).names_len(),
            final(self).labels_len() == old(self).labels_len(),
            final(self).tag_strings() == old(self).tag_strings(),
            final(self).name_strings() == old(self).name_strings(),
            final(self).label_strings() == old(self).label_strings(),
            final(self).tag_map() == old(self).tag_map(),
            final(self).name_map() == old(self).name_map(),
            final(self).label_map() == old(self).label_map(),
            final(self).label_sets() == old(self).label_sets(),
    {
        self.tagset_id = tagset_id.to_owned();
    }

    /// Stores `tag` under `id`, growing the table with blank entries as
    /// needed; the tag string now resolves to `id`.
    pub fn set_tag(&mut self, id: i32, tag: &str)
        requires
            old(self).wf(),
            0 <= id,
            id < i32::MAX,
        ensures
            final(self).wf(),
            final(self).has_tag(id as int),
            final(self).spec_tag(id as int) == tag@,
            final(self).tag_map().contains_key(tag@),
            final(self).tag_map()[tag@] == id,
            final(self).tag_map() == (if old(self).has_tag(id as int) && old(self).spec_tag(id as int).len() > 0 {
                old(self).tag_map().remove(old(self).spec_tag(id as int))
            } else {
                old(self).tag_map()
            }).insert(tag@, id),
            forall|j: int| 0 <= j < old(self).tags_len() && j != id ==> #[trigger] final(self).spec_tag(j) == old(self).spec_tag(j),
            final(self).tags_len() == if id < old(self).tags_len() { old(self).tags_len() } else { id as nat + 1 },
            final(self).tag_strings() == padded_update(old(self).tag_strings(), id as int, tag@),
            final(self).names_len() == old(self).names_len(),
            final(self).labels_len() == old(self).labels_len(),
            final(self).name_strings() == old(self).name_strings(),
            final(self).name_map() == old(self).name_map(),
            final(self).label_strings() == old(self).label_strings(),
            final(self).label_map() == old(self).label_map(),
            final(self).label_sets() == old(self).label_sets(),
            final(self).spec_tagset_id() == old(self).spec_tagset_id(),
    {
        let index = id as usize;
        while self.tags.len() <= index
            invariant
                self.tags@.len() <= index + 1 || self.tags@.len() == old(self).tags@.len(),
                forall|j: int| 0 <= j < old(self).tags@.len() ==> #[trigger] self.tags@[j] == old(self).tags@[j],
                self.tags@.len() >= old(self).tags@.len(),
                forall|j: int| old(self).tags@.len() <= j < self.tags@.len() ==> #[trigger] self.tags@[j]@.len() == 0,
                self.names@ == old(self).names@,
                self.labels@ == old(self).labels@,
                self.tag_ids == old(self).tag_ids,
                self.name_ids == old(self).name_ids,
                self.label_ids == old(self).label_ids,
                self.labels_as_sets@ == old(self).labels_as_sets@,
                self.tagset_id == old(self).tagset_id,
            decreases index + 1 - self.tags@.len(),
        {
            self.tags.push(String::new());
        }
        assert(forall|j: int| old(self).tags@.len() <= j < self.tags@.len() ==> #[trigger] self.tags@[j]@.len() == 0);
        if self.tags[index].as_str().is_empty() == false {
            let previous = self.tags[index].clone();
            self.tag_ids.remove(previous.as_str());
        }
        let ghost padded = self.tag_strings();
        self.tags.set(index, tag.to_owned());
        self.tag_ids.insert(tag, id);
        proof {
            let o = old(self).tag_strings();
            assert(self.tag_strings() =~= padded.update(id as int, tag@));
            if (id as int) < o.len() {
                assert(padded =~= o);
            } else {
                assert(padded.len() == id as int + 1);
                assert forall|j: int| o.len() <= j < padded.len() implies #[trigger] padded[j] == Seq::<char>::empty() by {
                    assert(padded[j] =~= Seq::<char>::empty());
                }
                assert(padded =~= o + Seq::new((id as int - o.len() + 1) as nat, |_j: int| Seq::<char>::empty()));
                assert(padded.update(id as int, tag@) =~= (o + Seq::new((id as int - o.len()) as nat, |_j: int| Seq::<char>::empty())).push(tag@));
            }
            assert(self.tag_strings() =~= padded_update(o, id as int, tag@));
        }
    }

    /// Stores `name` (trimmed, `_` when blank) under `id`.
    pub fn set_name(&mut self, id: i32, name: &str)
        requires
            old(self).wf(),
            0 <= id,
            id < i32::MAX,
        ensures
            final(self).wf(),
            final(self).has_name(id as int),
            final(self).spec_name(id as int) == normalized_id_value(name@),
            final(self).name_map().contains_key(normalized_id_value(name@)),
            final(self).name_map()[normalized_id_value(name@)] == id,
            forall|j: int| 0 <= j < old(self).names_len() && j != id ==> #[trigger] final(self).spec_name(j) == old(self).spec_name(j),
            final(self).names_len() == if id < old(self).names_len() { old(self).names_len() } else { id as nat + 1 },
            final(self).tag_strings() == old(self).tag_strings(),
            final(self).tag_map() == old(self).tag_map(),
            final(self).label_strings() == old(self).label_strings(),
            final(self).label_map() == old(self).label_map(),
            final(self).label_sets() == old(self).label_sets(),
            final(self).spec_tagset_id() == old(self).spec_tagset_id(),
    {
        let index = id as usize;
        let name = normalize_empty_id_value(name);
        while self.names.len() <= index
            invariant
                self.names@.len() <= index + 1 || self.names@.len() == old(self).names@.len(),
                forall|j: int| 0 <= j < old(self).names@.len() ==> #[trigger] self.names@[j] == old(self).names@[j],
                self.names@.len() >= old(self).names@.len(),
                self.tags@ == old(self).tags@,
                self.labels@ == old(self).labels@,
                self.tag_ids == old(self).tag_ids,
                self.name_ids == old(self).name_ids,
                self.label_ids == old(self).label_ids,
                self.labels_as_sets@ == old(self).labels_as_sets@,
                self.tagset_id == old(self).tagset_id,
            decreases index + 1 - self.names@.len(),
        {
            self.names.push(String::new());
        }
        if self.names[index].as_str().is_empty() == false {
            let previous = self.names[index].clone();
            self.name_ids.remove(previous.as_str());
        }
        self.names.set(index, name.clone());
        self.name_ids.insert(name.as_str(), id);
    }

    /// Stores the labels string (trimmed, `_` when blank) under `id`, with
    /// its labels set.
    pub fn set_labels_in_order(&mut self, id: i32, labels: &str)
        requires
            old(self).wf(),
            0 <= id,
            id < i32::MAX,
        ensures
            final(self).wf(),
            final(self).has_labels(id as int),
            final(self).spec_labels(id as int) == normalized_id_value(labels@),
            final(self).label_sets()[id as int] == labels_set_of(normalized_id_value(labels@)),
            final(self).label_map().contains_key(normalized_id_value(labels@)),
            final(self).label_map()[normalized_id_value(labels@)] == id,
            forall|j: int| 0 <= j < old(self).labels_len() && j != id ==> #[trigger] final(self).spec_labels(j) == old(self).spec_labels(j),
            final(self).labels_len() == if id < old(self).labels_len() { old(self).labels_len() } else { id as nat + 1 },
            final(self).tag_strings() == old(self).tag_strings(),
            final(self).tag_map() == old(self).tag_map(),
            final(self).name_strings() == old(self).name_strings(),
            final(self).name_map() == old(self).name_map(),
            final(self).spec_tagset_id() == old(self).spec_tagset_id(),
    {
        let index = id as usize;
        let labels = normalize_empty_id_value(labels);
        while self.labels.len() <= index
            invariant
                self.labels@.len() <= index + 1 || self.labels@.len() == old(self).labels@.len(),
                self.labels_as_sets@.len() == self.labels@.len(),
                forall|j: int| 0 <= j < old(self).labels@.len() ==> #[trigger] self.labels@[j] == old(self).labels@[j],
                self.labels@.len() >= old(self).labels@.len(),
                self.tags@ == old(self).tags@,
                self.names@ == old(self).names@,
                self.tag_ids == old(self).tag_ids,
                self.name_ids == old(self).name_ids,
                self.label_ids == old(self).label_ids,
                self.tagset_id == old(self).tagset_id,
            decreases index + 1 - self.labels@.len(),
        {
            self.labels.push(String::new());
            self.labels_as_sets.push(LabelSet::empty());
        }
        if self.labels[index].as_str().is_empty() == false {
            let previous = self.labels[index].clone();
            self.label_ids.remove(previous.as_str());
        }
        self.labels.set(index, labels.clone());
        self.label_ids.insert(labels.as_str(), id);
        let set = labels_to_set(labels.as_str());
        self.labels_as_sets.set(index, set);
    }
}

impl Default for IdResolver {
    /// The resolver every dictionary starts from: tag 0 is `ign`, tag 1 is
    /// `sp`, and name 0 and labels 0 are `_`.
    fn default() -> (r: Self)
        ensures
            r.wf(),
            r.tags_len() == 2,
            r.spec_tag(0) == "ign"@,
            r.spec_tag(1) == "sp"@,
            r.tag_strings() == seq!["ign"@, "sp"@],
            r.tag_map() == Map::<Seq<char>, i32>::empty().insert("ign"@, 0).insert("sp"@, 1),
            r.names_len() == 1,
            r.spec_name(0) == seq!['_'],
            r.name_map() == Map::<Seq<char>, i32>::empty().insert(seq!['_'], 0),
            r.labels_len() == 1,
            r.spec_labels(0) == seq!['_'],
            r.label_map() == Map::<Seq<char>, i32>::empty().insert(seq!['_'], 0),
            r.spec_tagset_id() == Seq::<char>::empty(),
    {
        let mut r = IdResolver::blank();
        r.set_tag(0, "ign");
        r.set_tag(1, "sp");
        r.get_or_insert_name("_");
        r.get_or_insert_labels_in_order("_");
        proof {
            reveal_strlit("_");
            reveal_strlit("ign");
            reveal_strlit("sp");
            assert("_"@ =~= seq!['_']);
            assert(trim_bounds("_"@, 0, 1));
            let w = (0int, 1int);
            assert(trim_bounds("_"@, w.0, w.1));
            let ab = choose|ab: (int, int)| trim_bounds("_"@, ab.0, ab.1);
            lemma_trim_bounds_unique("_"@, 0, 1, ab.0, ab.1);
            assert(trimmed("_"@) =~= seq!['_']);
            assert(normalized_id_value("_"@) =~= seq!['_']);
            assert("ign"@.len() == 3 && "sp"@.len() == 2);
            assert("ign"@ != "sp"@);
            assert(r.tag_strings() =~= seq!["ign"@, "sp"@]);
            assert(r.tag_map() =~= Map::<Seq<char>, i32>::empty().insert("ign"@, 0).insert("sp"@, 1));
            assert(r.name_map() =~= Map::<Seq<char>, i32>::empty().insert(seq!['_'], 0));
            assert(r.label_map() =~= Map::<Seq<char>, i32>::empty().insert(seq!['_'], 0));
        }
        r
    }
}

impl IdResolver {
    /// The id of `tag`, adding it at the end of the table when it is new.
    pub fn get_or_insert_tag(&mut self, tag: &str) -> (id: i32)
        requires
            old(self).wf(),
            old(self).tags_len() < i32::MAX,
        ensures
            final(self).wf(),
            old(self).tag_map().contains_key(tag@) ==> id == old(self).tag_map()[tag@] && *final(self) == *old(self),
            !old(self).tag_map().contains_key(tag@) ==> id == old(self).tags_len()
                && final(self).tags_len() == old(self).tags_len() + 1
                && final(self).spec_tag(id as int) == tag@,
            final(self).tag_map().contains_key(tag@) && final(self).tag_map()[tag@] == id,
            final(self).tag_map() == old(self).tag_map().insert(tag@, id),
            forall|j: int| 0 <= j < old(self).tags_len() ==> #[trigger] final(self).spec_tag(j) == old(self).spec_tag(j),
            final(self).tags_len() >= old(self).tags_len(),
            final(self).tags_len() <= old(self).tags_len() + 1,
            final(self).names_len() == old(self).names_len(),
            final(self).labels_len() == old(self).labels_len(),
            final(self).name_strings() == old(self).name_strings(),
            final(self).name_map() == old(self).name_map(),
            final(self).label_strings() == old(self).label_strings(),
            final(self).label_map() == old(self).label_map(),
            final(self).label_sets() == old(self).label_sets(),
            final(self).spec_tagset_id() == old(self).spec_tagset_id(),
    {
        match self.tag_ids.get(tag) {
            Some(id) => {
                assert(self.tag_map() =~= old(self).tag_map().insert(tag@, id));
                id
            },
            None => {
                let id = self.tags.len() as i32;
                self.set_tag(id, tag);
                id
            },
        }
    }

    /// The id of `name` (trimmed, `_` when blank), adding it at the end of
    /// the table when it is new.
    pub fn get_or_insert_name(&mut self, name: &str) -> (id: i32)
        requires
            old(self).wf(),
            old(self).names_len() < i32::MAX,
        ensures
            final(self).wf(),
            old(self).name_map().contains_key(normalized_id_value(name@)) ==> id == old(self).name_map()[normalized_id_value(name@)] && *final(self) == *old(self),
            !old(self).name_map().contains_key(normalized_id_value(name@)) ==> id == old(self).names_len()
                && final(self).names_len() == old(self).names_len() + 1
                && final(self).spec_name(id as int) == normalized_id_value(name@),
            final(self).labels_len() == old(self).labels_len(),
            final(self).tags_len() == old(self).tags_len(),
            forall|j: int| 0 <= j < old(self).tags_len() ==> #[trigger] final(self).spec_tag(j) == old(self).spec_tag(j),
            final(self).name_map().contains_key(normalized_id_value(name@)),
            final(self).name_map()[normalized_id_value(name@)] == id,
            final(self).name_map() == old(self).name_map().insert(normalized_id_value(name@), id),
            final(self).tag_strings() == old(self).tag_strings(),
            final(self).tag_map() == old(self).tag_map(),
            final(self).label_strings() == old(self).label_strings(),
            final(self).label_map() == old(self).label_map(),
            final(self).label_sets() == old(self).label_sets(),
            final(self).spec_tagset_id() == old(self).spec_tagset_id(),
    {
        let normalized = normalize_empty_id_value(name);
        match self.name_ids.get(normalized.as_str()) {
            Some(id) => {
                assert(self.name_map() =~= old(self).name_map().insert(normalized_id_value(name@), id));
                id
            },
            None => {
                let id = self.names.len() as i32;
                self.names.push(normalized.clone());
                self.name_ids.insert(normalized.as_str(), id);
                id
            },
        }
    }

    /// The id of a labels string kept in the given order (trimmed, `_` when
    /// blank), adding it at the end of the table when it is new.
    pub fn get_or_insert_labels_in_order(&mut self, labels: &str) -> (id: i32)
        requires
            old(self).wf(),
            old(self).labels_len() < i32::MAX,
        ensures
            final(self).wf(),
            old(self).label_map().contains_key(normalized_id_value(labels@)) ==> id == old(self).label_map()[normalized_id_value(labels@)] && *final(self) == *old(self),
            !old(self).label_map().contains_key(normalized_id_value(labels@)) ==> id == old(self).labels_len()
                && final(self).labels_len() == old(self).labels_len() + 1
                && final(self).spec_labels(id as int) == normalized_id_value(labels@)
                && final(self).label_sets()[id as int] == labels_set_of(normalized_id_value(labels@)),
            final(self).label_map().contains_key(normalized_id_value(labels@)),
            final(self).label_map()[normalized_id_value(labels@)] == id,
            final(self).label_map() == old(self).label_map().insert(normalized_id_value(labels@), id),
            final(self).tags_len() == old(self).tags_len(),
            final(self).names_len() == old(self).names_len(),
            forall|j: int| 0 <= j < old(self).tags_len() ==> #[trigger] final(self).spec_tag(j) == old(self).spec_tag(j),
            forall|j: int| 0 <= j < old(self).names_len() ==> #[trigger] final(self).spec_name(j) == old(self).spec_name(j),
            final(self).tag_strings() == old(self).tag_strings(),
            final(self).tag_map() == old(self).tag_map(),
            final(self).name_strings() == old(self).name_strings(),
            final(self).name_map() == old(self).name_map(),
            final(self).spec_tagset_id() == old(self).spec_tagset_id(),
    {
        let normalized = normalize_empty_id_value(labels);
        match self.label_ids.get(normalized.as_str()) {
            Some(id) => {
                assert(self.label_map() =~= old(self).label_map().insert(normalized_id_value(labels@), id));
                id
            },
            None => {
                let id = self.labels.len() as i32;
                self.labels.push(normalized.clone());
                self.label_ids.insert(normalized.as_str(), id);
                let set = labels_to_set(normalized.as_str());
                self.labels_as_sets.push(set);
                proof {
                    assert(self.label_sets()[id as int] == set.view());
                }
                id
            },
        }
    }

    /// The id of a labels string in canonical form (see
    /// `canonicalize_labels`), adding it at the end of the table when it is
    /// new.
    pub fn get_or_insert_labels(&mut self, labels: &str) -> (id: i32)
        requires
            old(self).wf(),
            old(self).labels_len() < i32::MAX,
        ensures
            final(self).wf(),
            ({
                let key = normalized_id_value(canonical_labels(labels@));
                &&& old(self).label_map().contains_key(key) ==> id == old(self).label_map()[key] && *final(self) == *old(self)
                &&& !old(self).label_map().contains_key(key) ==> id == old(self).labels_len()
                    && final(self).labels_len() == old(self).labels_len() + 1
                    && final(self).spec_labels(id as int) == key
                    && final(self).label_sets()[id as int] == labels_set_of(key)
                &&& final(self).label_map() == old(self).label_map().insert(key, id)
            }),
            final(self).tags_len() == old(self).tags_len(),
            final(self).names_len() == old(self).names_len(),
            forall|j: int| 0 <= j < old(self).tags_len() ==> #[trigger] final(self).spec_tag(j) == old(self).spec_tag(j),
            forall|j: int| 0 <= j < old(self).names_len() ==> #[trigger] final(self).spec_name(j) == old(self).spec_name(j),
            final(self).tag_strings() == old(self).tag_strings(),
            final(self).tag_map() == old(self).tag_map(),
            final(self).name_strings() == old(self).name_strings(),
            final(self).name_map() == old(self).name_map(),
            final(self).spec_tagset_id() == old(self).spec_tagset_id(),
    {
        let canonical = canonicalize_labels(labels);
        self.get_or_insert_labels_in_order(canonical.as_str())
    }
}

} // verus!
