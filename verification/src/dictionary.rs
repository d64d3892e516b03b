//! An in-memory dictionary of entries, indexed by form and by lemma.
use vstd::prelude::*;
use crate::config::SegmentationPreset;
use crate::error::Result;
use crate::id_resolver::IdResolver;
use crate::text::{chars_of, is_ascii_digit_char, owned, string_from_char_range, str_eq};
use crate::ports::{forms_of, reading_of, Lexicon};
use crate::ordered::str_views;
use crate::types::MorphInterpretation;

verus! {

/// One reading of a form: its lemma and the ids of its tag, name and labels.
#[derive(Debug, Clone, PartialEq, Eq)]
pub struct DictionaryEntry {
    pub orth: String,
    pub lemma: String,
    pub tag_id: i32,
    pub name_id: i32,
    pub labels_id: i32,
}

/// The content of an entry.
pub struct EntryView {
    pub orth: Seq<char>,
    pub lemma: Seq<char>,
    pub tag_id: i32,
    pub name_id: i32,
    pub labels_id: i32,
}

pub open spec fn entry_view(e: DictionaryEntry) -> EntryView {
    EntryView { orth: e.orth@, lemma: e.lemma@, tag_id: e.tag_id, name_id: e.name_id, labels_id: e.labels_id }
}

pub open spec fn entries_view(s: Seq<DictionaryEntry>) -> Seq<EntryView> {
    s.map_values(|e: DictionaryEntry| entry_view(e))
}

/// The map with the entry added at the end of the list under `k`.
pub open spec fn pushed_under(m: Map<Seq<char>, Seq<EntryView>>, k: Seq<char>, e: EntryView) -> Map<Seq<char>, Seq<EntryView>> {
    m.insert(k, if m.dom().contains(k) { m[k].push(e) } else { seq![e] })
}

/// The entries with the given form, in order.
pub open spec fn with_orth(entries: Seq<EntryView>, orth: Seq<char>) -> Seq<EntryView> {
    entries.filter(|e: EntryView| e.orth == orth)
}

/// The entries whose lemma, or lemma without its homonym suffix, is `lemma`.
pub open spec fn for_lemma(entries: Seq<EntryView>, lemma: Seq<char>) -> Seq<EntryView> {
    entries.filter(|e: EntryView| lemma_base_of(e.lemma) == lemma || e.lemma == lemma)
}

impl DictionaryEntry {
    /// An entry with the same content.
    pub fn copy(&self) -> (r: Self)
        ensures
            entry_view(r) == entry_view(*self),
    {
        DictionaryEntry {
            orth: owned(self.orth.as_str()),
            lemma: owned(self.lemma.as_str()),
            tag_id: self.tag_id,
            name_id: self.name_id,
            labels_id: self.labels_id,
        }
    }
}

/// Lists of entries, each under a key, keys distinct.
#[derive(Debug, Clone)]
pub struct EntryIndex {
    keys: Vec<String>,
    lists: Vec<Vec<DictionaryEntry>>,
}

impl EntryIndex {
    pub closed spec fn wf(&self) -> bool {
        &&& self.keys@.len() == self.lists@.len()
        &&& forall|i: int, j: int| 0 <= i < j < self.keys@.len() ==> self.keys@[i]@ != self.keys@[j]@
    }

    /// The list under each key.
    pub closed spec fn view(&self) -> Map<Seq<char>, Seq<EntryView>> {
        Map::new(
            |k: Seq<char>| exists|i: int| 0 <= i < self.keys@.len() && self.keys@[i]@ == k,
            |k: Seq<char>| {
                let i = choose|i: int| 0 <= i < self.keys@.len() && self.keys@[i]@ == k;
                entries_view(self.lists@[i]@)
            },
        )
    }

    pub fn new() -> (r: Self)
        ensures
            r.wf(),
            r.view() == Map::<Seq<char>, Seq<EntryView>>::empty(),
    {
        let r = EntryIndex { keys: Vec::new(), lists: Vec::new() };
        assert(r.view() =~= Map::<Seq<char>, Seq<EntryView>>::empty());
        r
    }

    fn position(&self, key: &str) -> (r: Option<usize>)
        requires
            self.wf(),
        ensures
            r matches Some(i) ==> i < self.keys@.len() && self.keys@[i as int]@ == key@,
            r is None ==> forall|i: int| 0 <= i < self.keys@.len() ==> self.keys@[i]@ != key@,
    {
        let mut i: usize = 0;
        while i < self.keys.len()
            invariant
                self.wf(),
                i <= self.keys@.len(),
                forall|k: int| 0 <= k < i ==> self.keys@[k]@ != key@,
            decreases self.keys@.len() - i,
        {
            if str_eq(self.keys[i].as_str(), key) {
                return Some(i);
            }
            i = i + 1;
        }
        None
    }

    /// The entries under `key`, if any.
    pub fn get(&self, key: &str) -> (r: Option<&[DictionaryEntry]>)
        requires
            self.wf(),
        ensures
            r is Some <==> self.view().dom().contains(key@),
            r matches Some(s) ==> entries_view(s@) == self.view()[key@],
    {
        match self.position(key) {
            Some(i) => {
                proof {
                    let j = choose|j: int| 0 <= j < self.keys@.len() && self.keys@[j]@ == key@;
                    assert(j == i as int);
                }
                Some(self.lists[i].as_slice())
            },
            None => None,
        }
    }

    fn add(&mut self, key: &str, entry: DictionaryEntry, front: bool)
        requires
            old(self).wf(),
        ensures
            final(self).wf(),
            final(self).view() == old(self).view().insert(key@,
                if old(self).view().dom().contains(key@) {
                    if front {
                        seq![entry_view(entry)] + old(self).view()[key@]
                    } else {
                        old(self).view()[key@].push(entry_view(entry))
                    }
                } else {
                    seq![entry_view(entry)]
                }),
    {
        let ghost ov = self.view();
        match self.position(key) {
            Some(i) => {
                proof {
                    let j = choose|j: int| 0 <= j < self.keys@.len() && self.keys@[j]@ == key@;
                    assert(j == i as int);
                }
                let mut list = self.lists.remove(i);
                let ghost old_list = list@;
                if front {
                    list.insert(0, entry);
                } else {
                    list.push(entry);
                }
                self.lists.insert(i, list);
                assert(self.lists@ =~= old(self).lists@.update(i as int, list));
                proof {
                    assert forall|k: Seq<char>| #![auto] self.view().dom().contains(k) == ov.insert(key@, self.view()[key@]).dom().contains(k) by {}
                    assert(entries_view(self.lists@[i as int]@) =~= if front {
                        seq![entry_view(entry)] + entries_view(old_list)
                    } else {
                        entries_view(old_list).push(entry_view(entry))
                    });
                    assert forall|k: Seq<char>| #![auto] self.view().dom().contains(k) implies
                        self.view()[k] == ov.insert(key@, if front {
                            seq![entry_view(entry)] + ov[key@]
                        } else {
                            ov[key@].push(entry_view(entry))
                        })[k] by {
                        let j = choose|j: int| 0 <= j < self.keys@.len() && self.keys@[j]@ == k;
                        if k == key@ {
                            assert(j == i as int);
                        }
                    }
                    assert(self.view() =~= ov.insert(key@, if front {
                        seq![entry_view(entry)] + ov[key@]
                    } else {
                        ov[key@].push(entry_view(entry))
                    }));
                }
            },
            None => {
                let mut list: Vec<DictionaryEntry> = Vec::new();
                list.push(entry);
                self.keys.push(owned(key));
                self.lists.push(list);
                proof {
                    let n = self.keys@.len() - 1;
                    assert(entries_view(self.lists@[n]@) =~= seq![entry_view(entry)]);
                    assert forall|k: Seq<char>| #![auto] self.view().dom().contains(k) == ov.insert(key@, seq![entry_view(entry)]).dom().contains(k) by {
                        if k == key@ {
                            assert(self.keys@[n]@ == k);
                        }
                        if ov.dom().contains(k) {
                            let j = choose|j: int| 0 <= j < old(self).keys@.len() && old(self).keys@[j]@ == k;
                            assert(self.keys@[j]@ == k);
                        }
                    }
                    assert forall|k: Seq<char>| #![auto] self.view().dom().contains(k) implies
                        self.view()[k] == ov.insert(key@, seq![entry_view(entry)])[k] by {
                        let j = choose|j: int| 0 <= j < self.keys@.len() && self.keys@[j]@ == k;
                        if k == key@ {
                            assert(j == n);
                        } else {
                            let j2 = choose|j2: int| 0 <= j2 < old(self).keys@.len() && old(self).keys@[j2]@ == k;
                            assert(self.keys@[j2]@ == k);
                        }
                    }
                    assert(self.view() =~= ov.insert(key@, seq![entry_view(entry)]));
                }
            },
        }
    }

    /// Appends an entry to the list under `key`.
    pub fn push(&mut self, key: &str, entry: DictionaryEntry)
        requires
            old(self).wf(),
        ensures
            final(self).wf(),
            final(self).view() == old(self).view().insert(key@,
                if old(self).view().dom().contains(key@) {
                    old(self).view()[key@].push(entry_view(entry))
                } else {
                    seq![entry_view(entry)]
                }),
    {
        self.add(key, entry, false);
    }

    /// Puts an entry first in the list under `key`.
    pub fn push_front(&mut self, key: &str, entry: DictionaryEntry)
        requires
            old(self).wf(),
        ensures
            final(self).wf(),
            final(self).view() == old(self).view().insert(key@,
                if old(self).view().dom().contains(key@) {
                    seq![entry_view(entry)] + old(self).view()[key@]
                } else {
                    seq![entry_view(entry)]
                }),
    {
        self.add(key, entry, true);
    }
}

/// What is before the first `:` of a lemma, or the whole lemma.
pub open spec fn lemma_base_of(lemma: Seq<char>) -> Seq<char> {
    if exists|i: int| 0 <= i < lemma.len() && lemma[i] == ':' {
        let i = choose|i: int| 0 <= i < lemma.len() && lemma[i] == ':'
            && forall|j: int| 0 <= j < i ==> lemma[j] != ':';
        lemma.take(i)
    } else {
        lemma
    }
}

/// The index of the first `:` of the characters, if any.
pub fn first_colon(chars: &[char]) -> (r: Option<usize>)
    ensures
        r matches Some(i) ==> i < chars@.len() && chars@[i as int] == ':'
            && forall|j: int| 0 <= j < i ==> chars@[j] != ':',
        r is None ==> forall|j: int| 0 <= j < chars@.len() ==> chars@[j] != ':',
{
    let mut i: usize = 0;
    while i < chars.len()
        invariant
            i <= chars@.len(),
            forall|j: int| 0 <= j < i ==> chars@[j] != ':',
        decreases chars@.len() - i,
    {
        if chars[i] == ':' {
            return Some(i);
        }
        i = i + 1;
    }
    None
}

/// The lemma without its homonym suffix.
pub fn lemma_base(lemma: &str) -> (r: String)
    ensures
        r@ == lemma_base_of(lemma@),
{
    let chars = chars_of(lemma);
    match first_colon(chars.as_slice()) {
        Some(i) => {
            proof {
                let k = choose|k: int| 0 <= k < lemma@.len() && lemma@[k] == ':'
                    && forall|j: int| 0 <= j < k ==> lemma@[j] != ':';
                assert(k == i as int);
            }
            string_from_char_range(chars.as_slice(), 0, i)
        },
        None => owned(lemma),
    }
}

/// A dictionary of entries, looked up by form and by lemma.
#[derive(Debug, Clone)]
pub struct Dictionary {
    id: String,
    copyright: String,
    resolver: IdResolver,
    entries: Vec<DictionaryEntry>,
    by_orth: EntryIndex,
    by_generator_key: EntryIndex,
}

impl Default for Dictionary {
    fn default() -> (r: Self)
        ensures
            r.wf(),
            r.spec_id() == Seq::<char>::empty(),
            r.spec_copyright() == Seq::<char>::empty(),
            r.orth_index() == Map::<Seq<char>, Seq<EntryView>>::empty(),
    {
        Dictionary::empty()
    }
}

impl Dictionary {
    pub closed spec fn wf(&self) -> bool {
        &&& self.resolver.wf()
        &&& self.by_orth.wf()
        &&& self.by_generator_key.wf()
    }

    pub closed spec fn spec_id(&self) -> Seq<char> {
        self.id@
    }

    pub closed spec fn spec_copyright(&self) -> Seq<char> {
        self.copyright@
    }

    pub closed spec fn spec_resolver(&self) -> IdResolver {
        self.resolver
    }

    /// The entries in the order they were added.
    pub closed spec fn entries_seq(&self) -> Seq<EntryView> {
        entries_view(self.entries@)
    }

    /// The entries of each form.
    pub closed spec fn orth_index(&self) -> Map<Seq<char>, Seq<EntryView>> {
        self.by_orth.view()
    }

    /// The entries of each lemma and of each lemma without its homonym id.
    pub closed spec fn generator_index(&self) -> Map<Seq<char>, Seq<EntryView>> {
        self.by_generator_key.view()
    }

    /// The readings of each form are exactly the entries added with that
    /// form, in the order they were added.
    pub open spec fn indexed_by_orth(&self) -> bool {
        forall|k: Seq<char>| {
            &&& #[trigger] self.orth_index().dom().contains(k) <==> with_orth(self.entries_seq(), k).len() > 0
            &&& self.orth_index().dom().contains(k) ==> self.orth_index()[k] == with_orth(self.entries_seq(), k)
        }
    }

    /// The entries found for a lemma are exactly the entries added whose
    /// lemma, or lemma without its homonym suffix, is that lemma, in the
    /// order they were added.
    pub open spec fn indexed_by_lemma(&self) -> bool {
        forall|k: Seq<char>| {
            &&& #[trigger] self.generator_index().dom().contains(k) <==> for_lemma(self.entries_seq(), k).len() > 0
            &&& self.generator_index().dom().contains(k) ==> self.generator_index()[k] == for_lemma(self.entries_seq(), k)
        }
    }

    /// The forms generated from a lemma: those of its entries; else, for a
    /// number made of ASCII digits where the tagset has `dig`, one `dig`
    /// reading of it; else none.
    pub open spec fn synthesized(&self, lemma: Seq<char>, v: Seq<MorphInterpretation>) -> bool {
        if self.generator_index().dom().contains(lemma) {
            forms_of(v, self.generator_index()[lemma])
        } else if all_digits(lemma) && self.spec_resolver().tag_map().dom().contains("dig"@) {
            v.len() == 1 && dig_reading(v[0], lemma, self.spec_resolver(), 0, 0, lemma)
        } else {
            v.len() == 0
        }
    }

    pub fn empty() -> (r: Self)
        ensures
            r.wf(),
            r.indexed_by_orth(),
            r.indexed_by_lemma(),
            r.spec_id() == Seq::<char>::empty(),
            r.spec_copyright() == Seq::<char>::empty(),
            r.orth_index() == Map::<Seq<char>, Seq<EntryView>>::empty(),
            r.generator_index() == Map::<Seq<char>, Seq<EntryView>>::empty(),
            r.entries_seq() == Seq::<EntryView>::empty(),
    {
        let r = Dictionary {
            id: String::new(),
            copyright: String::new(),
            resolver: IdResolver::default(),
            entries: Vec::new(),
            by_orth: EntryIndex::new(),
            by_generator_key: EntryIndex::new(),
        };
        assert(r.entries_seq() =~= Seq::<EntryView>::empty());
        r
    }

    /// An empty dictionary over the given tagset.
    pub fn new(resolver: IdResolver) -> (r: Self)
        requires
            resolver.wf(),
        ensures
            r.wf(),
            r.indexed_by_orth(),
            r.indexed_by_lemma(),
            r.spec_resolver() == resolver,
            r.spec_id() == Seq::<char>::empty(),
            r.spec_copyright() == Seq::<char>::empty(),
            r.orth_index() == Map::<Seq<char>, Seq<EntryView>>::empty(),
            r.generator_index() == Map::<Seq<char>, Seq<EntryView>>::empty(),
            r.entries_seq() == Seq::<EntryView>::empty(),
    {
        let r = Dictionary {
            id: String::new(),
            copyright: String::new(),
            resolver,
            entries: Vec::new(),
            by_orth: EntryIndex::new(),
            by_generator_key: EntryIndex::new(),
        };
        assert(r.entries_seq() =~= Seq::<EntryView>::empty());
        r
    }

    pub fn id(&self) -> (r: &str)
        ensures
            r@ == self.spec_id(),
    {
        self.id.as_str()
    }

    pub fn copyright(&self) -> (r: &str)
        ensures
            r@ == self.spec_copyright(),
    {
        self.copyright.as_str()
    }

    /// Sets the dictionary's id and copyright.
    pub fn set_metadata(&mut self, id: &str, copyright: &str)
        ensures
            final(self).spec_id() == id@,
            final(self).spec_copyright() == copyright@,
            final(self).wf() == old(self).wf(),
            final(self).orth_index() == old(self).orth_index(),
            final(self).generator_index() == old(self).generator_index(),
            final(self).entries_seq() == old(self).entries_seq(),
            final(self).spec_resolver() == old(self).spec_resolver(),
    {
        self.id = owned(id);
        self.copyright = owned(copyright);
    }

    pub fn resolver(&self) -> (r: &IdResolver)
        ensures
            *r == self.spec_resolver(),
            self.wf() ==> r.wf(),
    {
        &self.resolver
    }

    /// Replaces the tagset.
    pub fn set_resolver(&mut self, resolver: IdResolver)
        requires
            old(self).wf(),
            resolver.wf(),
        ensures
            final(self).wf(),
            final(self).spec_resolver() == resolver,
            final(self).spec_id() == old(self).spec_id(),
            final(self).spec_copyright() == old(self).spec_copyright(),
            final(self).orth_index() == old(self).orth_index(),
            final(self).generator_index() == old(self).generator_index(),
            final(self).entries_seq() == old(self).entries_seq(),
    {
        self.resolver = resolver;
    }

    /// The entries of a form, in the order they were added.
    pub fn lookup(&self, orth: &str) -> (r: Option<&[DictionaryEntry]>)
        requires
            self.wf(),
        ensures
            r is Some <==> self.orth_index().dom().contains(orth@),
            r matches Some(s) ==> entries_view(s@) == self.orth_index()[orth@],
    {
        self.by_orth.get(orth)
    }

    /// The entries of a lemma (with or without its homonym id).
    pub fn generate(&self, lemma: &str) -> (r: Option<&[DictionaryEntry]>)
        requires
            self.wf(),
        ensures
            r is Some <==> self.generator_index().dom().contains(lemma@),
            r matches Some(s) ==> entries_view(s@) == self.generator_index()[lemma@],
    {
        self.by_generator_key.get(lemma)
    }

    /// All entries, in the order they were added.
    pub fn entries(&self) -> (r: &[DictionaryEntry])
        ensures
            entries_view(r@) == self.entries_seq(),
    {
        self.entries.as_slice()
    }

    /// Makes `entry` the first reading found for `orth`.
    pub fn insert_lookup_alias_front(&mut self, orth: &str, entry: DictionaryEntry)
        requires
            old(self).wf(),
        ensures
            final(self).wf(),
            final(self).orth_index() == old(self).orth_index().insert(orth@,
                if old(self).orth_index().dom().contains(orth@) {
                    seq![entry_view(entry)] + old(self).orth_index()[orth@]
                } else {
                    seq![entry_view(entry)]
                }),
            final(self).generator_index() == old(self).generator_index(),
            final(self).entries_seq() == old(self).entries_seq(),
            final(self).spec_resolver() == old(self).spec_resolver(),
            final(self).spec_id() == old(self).spec_id(),
            final(self).spec_copyright() == old(self).spec_copyright(),
    {
        self.by_orth.push_front(orth, entry);
    }

    /// Adds an entry: under its form, under its lemma, and under its lemma
    /// without the homonym id when that differs.
    pub fn insert(&mut self, entry: DictionaryEntry)
        requires
            old(self).wf(),
        ensures
            final(self).wf(),
            final(self).entries_seq() == old(self).entries_seq().push(entry_view(entry)),
            final(self).orth_index().dom() == old(self).orth_index().dom().insert(entry.orth@),
            final(self).orth_index()[entry.orth@] == (if old(self).orth_index().dom().contains(entry.orth@) {
                old(self).orth_index()[entry.orth@].push(entry_view(entry))
            } else {
                seq![entry_view(entry)]
            }),
            forall|k: Seq<char>| k != entry.orth@ ==> #[trigger] final(self).orth_index().dom().contains(k)
                ==> final(self).orth_index()[k] == old(self).orth_index()[k],
            final(self).generator_index().dom().contains(lemma_base_of(entry.lemma@)),
            final(self).generator_index().dom().contains(entry.lemma@),
            final(self).generator_index() == if entry.lemma@ == lemma_base_of(entry.lemma@) {
                pushed_under(old(self).generator_index(), entry.lemma@, entry_view(entry))
            } else {
                pushed_under(pushed_under(old(self).generator_index(), lemma_base_of(entry.lemma@), entry_view(entry)),
                    entry.lemma@, entry_view(entry))
            },
            final(self).spec_resolver() == old(self).spec_resolver(),
            final(self).spec_id() == old(self).spec_id(),
            final(self).spec_copyright() == old(self).spec_copyright(),
            old(self).indexed_by_orth() ==> final(self).indexed_by_orth(),
            old(self).indexed_by_lemma() ==> final(self).indexed_by_lemma(),
    {
        let base = lemma_base(entry.lemma.as_str());
        let ghost gen_before = self.by_generator_key.view();
        self.by_generator_key.push(base.as_str(), entry.copy());
        let ghost gen_mid = self.by_generator_key.view();
        if !str_eq(entry.lemma.as_str(), base.as_str()) {
            self.by_generator_key.push(entry.lemma.as_str(), entry.copy());
        }
        let ghost before = self.by_orth.view();
        self.by_orth.push(entry.orth.as_str(), entry.copy());
        proof {
            let after = self.by_orth.view();
            assert(entries_view(self.entries@.push(entry)) =~= entries_view(self.entries@).push(entry_view(entry)));
            assert forall|k: Seq<char>| k != entry.orth@ && #[trigger] after.dom().contains(k) implies after[k] == before[k] by {}
        }
        let ghost old_entries = self.entries_seq();
        self.entries.push(entry);
        proof {
            if old(self).indexed_by_lemma() {
                let e = entry_view(entry);
                assert forall|k: Seq<char>| {
                    &&& #[trigger] self.generator_index().dom().contains(k) <==> for_lemma(self.entries_seq(), k).len() > 0
                    &&& self.generator_index().dom().contains(k) ==> self.generator_index()[k] == for_lemma(self.entries_seq(), k)
                } by {
                    old_entries.lemma_filter_push(e, |x: EntryView| lemma_base_of(x.lemma) == k || x.lemma == k);
                    assert(self.entries_seq() == old_entries.push(e));
                    assert(gen_before == old(self).generator_index());
                    assert(old(self).generator_index().dom().contains(k) <==> for_lemma(old_entries, k).len() > 0);
                    let before_list = if gen_before.dom().contains(k) { gen_before[k] } else { Seq::<EntryView>::empty() };
                    if !gen_before.dom().contains(k) {
                        assert(for_lemma(old_entries, k) =~= Seq::<EntryView>::empty());
                    }
                    assert(before_list == for_lemma(old_entries, k));
                    if k == base@ {
                        assert(gen_mid[k] == before_list.push(e));
                    } else if k == e.lemma {
                        assert(gen_mid.dom().contains(k) == gen_before.dom().contains(k));
                    } else {
                        assert(gen_mid.dom().contains(k) == gen_before.dom().contains(k));
                    }
                }
            }
            if old(self).indexed_by_orth() {
                let e = entry_view(entry);
                assert forall|k: Seq<char>| {
                    &&& #[trigger] self.orth_index().dom().contains(k) <==> with_orth(self.entries_seq(), k).len() > 0
                    &&& self.orth_index().dom().contains(k) ==> self.orth_index()[k] == with_orth(self.entries_seq(), k)
                } by {
                    old_entries.lemma_filter_push(e, |x: EntryView| x.orth == k);
                    assert(self.entries_seq() == old_entries.push(e));
                    if k == entry.orth@ {
                        if !old(self).orth_index().dom().contains(k) {
                            assert(with_orth(old_entries, k) =~= Seq::<EntryView>::empty());
                        }
                    } else {
                        assert(old(self).orth_index().dom().contains(k) == self.orth_index().dom().contains(k));
                    }
                }
            }
        }
    }
}

impl Lexicon for Dictionary {
    open spec fn lexicon_wf(&self) -> bool {
        self.wf()
    }

    open spec fn spec_resolver(&self) -> IdResolver {
        self.spec_resolver()
    }

    open spec fn spec_id(&self) -> Seq<char> {
        self.spec_id()
    }

    open spec fn spec_copyright(&self) -> Seq<char> {
        self.spec_copyright()
    }

    fn id(&self) -> &str {
        self.id.as_str()
    }

    fn copyright(&self) -> &str {
        self.copyright.as_str()
    }

    fn resolver(&self) -> (r: &IdResolver) {
        &self.resolver
    }

    open spec fn spec_lookup(&self, orth: Seq<char>) -> Option<Seq<EntryView>> {
        if self.orth_index().dom().contains(orth) {
            Some(self.orth_index()[orth])
        } else {
            None
        }
    }

    open spec fn spec_synthesize(&self, lemma: Seq<char>) -> Option<Seq<EntryView>> {
        if self.generator_index().dom().contains(lemma) {
            Some(self.generator_index()[lemma])
        } else {
            None
        }
    }

    fn lookup(&self, orth: &str) -> Option<&[DictionaryEntry]> {
        self.by_orth.get(orth)
    }

    fn synthesize(&self, lemma: &str) -> Option<&[DictionaryEntry]> {
        self.by_generator_key.get(lemma)
    }

    /// A text dictionary has no segmentation rules of its own.
    fn default_aggl(&self) -> (r: Option<&str>)
        ensures
            r is None,
    {
        None
    }

    fn default_praet(&self) -> (r: Option<&str>)
        ensures
            r is None,
    {
        None
    }

    /// The standard `aggl` values.
    fn available_aggl_options(&self) -> (r: Vec<String>)
        ensures
            str_views(r@) == seq!["strict"@, "permissive"@, "isolated"@],
    {
        let mut v: Vec<String> = Vec::new();
        v.push(owned("strict"));
        v.push(owned("permissive"));
        v.push(owned("isolated"));
        proof {
            assert(str_views(v@) =~= seq!["strict"@, "permissive"@, "isolated"@]);
        }
        v
    }

    /// The standard `praet` values.
    fn available_praet_options(&self) -> (r: Vec<String>)
        ensures
            str_views(r@) == seq!["split"@, "composite"@],
    {
        let mut v: Vec<String> = Vec::new();
        v.push(owned("split"));
        v.push(owned("composite"));
        proof {
            assert(str_views(v@) =~= seq!["split"@, "composite"@]);
        }
        v
    }

    /// The entries of the lemma; else, for a number made of ASCII digits,
    /// one `dig` reading of it.
    fn synthesize_interpretations(&self, lemma: &str, segmentation: &SegmentationPreset) -> (r: Result<Vec<MorphInterpretation>>)
        ensures
            r matches Ok(v) && self.synthesized(lemma@, v@),
    {
        let mut out: Vec<MorphInterpretation> = Vec::new();
        match self.by_generator_key.get(lemma) {
            Some(entries) => {
                let mut i: usize = 0;
                while i < entries.len()
                    invariant
                        i <= entries@.len(),
                        out@.len() == i,
                        forall|k: int| 0 <= k < i ==> reading_of(#[trigger] out@[k], entry_view(entries@[k]), 0, 0,
                            entries@[k].orth@),
                    decreases entries@.len() - i,
                {
                    out.push(entry_to_interpretation(&entries[i], 0, 0, owned(entries[i].orth.as_str())));
                    i = i + 1;
                }
                return Ok(out);
            },
            None => {},
        }
        match tsv_digit_interpretation(&self.resolver, lemma, 0, 0, lemma) {
            Some(m) => {
                out.push(m);
            },
            None => {},
        }
        Ok(out)
    }
}

/// The edge of an entry between two nodes, with the given form.
pub fn entry_to_interpretation(entry: &DictionaryEntry, start_node: i32, end_node: i32, orth: String) -> (r: MorphInterpretation)
    ensures
        r.start_node == start_node && r.end_node == end_node && r.orth@ == orth@ && r.lemma@ == entry.lemma@
            && r.tag_id == entry.tag_id && r.name_id == entry.name_id && r.labels_id == entry.labels_id,
{
    MorphInterpretation {
        start_node,
        end_node,
        orth,
        lemma: owned(entry.lemma.as_str()),
        tag_id: entry.tag_id,
        name_id: entry.name_id,
        labels_id: entry.labels_id,
    }
}

/// The reading is the `dig` reading of the text as the edge `start..end`,
/// reported with `orth`.
pub open spec fn dig_reading(m: MorphInterpretation, text: Seq<char>, resolver: IdResolver, start: int, end: int, orth: Seq<char>) -> bool {
    &&& m.start_node == start
    &&& m.end_node == end
    &&& m.orth@ == orth
    &&& m.lemma@ == text
    &&& m.tag_id == resolver.tag_map()["dig"@]
    &&& m.name_id == 0
    &&& m.labels_id == 0
}

/// Whether the text is non-empty and made only of ASCII digits.
pub open spec fn all_digits(s: Seq<char>) -> bool {
    s.len() > 0 && forall|i: int| 0 <= i < s.len() ==> is_ascii_digit_char(#[trigger] s[i])
}

/// A `dig` reading of a number made of ASCII digits, where the tagset has
/// that tag.
pub fn tsv_digit_interpretation(resolver: &IdResolver, text: &str, start_node: i32, end_node: i32, orth: &str) -> (r: Option<MorphInterpretation>)
    requires
        resolver.wf(),
    ensures
        r is Some <==> all_digits(text@) && resolver.tag_map().dom().contains("dig"@),
        r matches Some(m) ==> m.start_node == start_node && m.end_node == end_node && m.orth@ == orth@
            && m.lemma@ == text@ && m.tag_id == resolver.tag_map()["dig"@] && m.name_id == 0 && m.labels_id == 0,
{
    let chars = chars_of(text);
    if chars.len() == 0 {
        return None;
    }
    let mut i: usize = 0;
    while i < chars.len()
        invariant
            chars@ == text@,
            i <= chars@.len(),
            forall|k: int| 0 <= k < i ==> is_ascii_digit_char(#[trigger] text@[k]),
        decreases chars@.len() - i,
    {
        if !(chars[i] >= '0' && chars[i] <= '9') {
            return None;
        }
        i = i + 1;
    }
    let tag_id = match resolver.tag_id("dig") {
        Ok(id) => id,
        Err(_) => {
            return None;
        },
    };
    Some(MorphInterpretation {
        start_node,
        end_node,
        orth: owned(orth),
        lemma: owned(text),
        tag_id,
        name_id: 0,
        labels_id: 0,
    })
}

} // verus!
