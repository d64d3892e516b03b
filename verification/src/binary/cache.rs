//! The word-template cache: the analysis of a word that was seen twice,
//! kept with node numbers relative to its start so that a later sighting at
//! another node gets the same readings without analysing the word again.
use vstd::prelude::*;
use std::collections::HashMap;
use vstd::utf8::encode_utf8;
use crate::text::{owned, str_eq};
use crate::types::{moved_reading, MorphInterpretation};

verus! {

broadcast use vstd::std_specs::hash::group_hash_axioms;

pub const WORD_TEMPLATE_CACHE_MAX_WORDS: usize = 20480;
pub const WORD_TEMPLATE_SEEN_ONCE_SLOTS: usize = 65536;
pub const WORD_TEMPLATE_MAX_WORD_BYTES: usize = 64;
pub const WORD_TEMPLATE_MAX_INTERPRETATIONS: usize = 32;

/// What a cached word is stored under: the hash of the word and options,
/// and the options' code.
#[derive(Debug, Clone, Copy, PartialEq, Eq, Structural)]
pub struct WordTemplateCacheKey {
    pub hash: u64,
    pub config_key: u16,
}

/// The form of a cached reading: the word itself, or another text.
#[derive(Debug, Clone)]
pub enum OrthTemplate {
    InputWord,
    Owned(String),
}

/// A reading with its nodes relative to the word's first node.
#[derive(Debug, Clone)]
pub struct MorphInterpretationTemplate {
    pub rel_start_node: i32,
    pub rel_end_node: i32,
    pub orth: OrthTemplate,
    pub lemma: String,
    pub tag_id: i32,
    pub name_id: i32,
    pub labels_id: i32,
}

/// The readings of one word under one key, and how many nodes they take.
#[derive(Debug, Clone)]
pub struct WordAnalysisTemplate {
    pub hash: u64,
    pub config_key: u16,
    pub word: String,
    pub next_node_delta: i32,
    pub interps: Vec<MorphInterpretationTemplate>,
}

/// How often each path through the cache was taken.
#[derive(Debug, Clone, Copy, PartialEq, Eq, Structural)]
pub struct WordTemplateCacheStats {
    pub lookups: u64,
    pub hits: u64,
    pub first_seen: u64,
    pub second_seen: u64,
    pub inserts: u64,
    pub reject_len: u64,
    pub reject_template_count: u64,
    pub reject_admission: u64,
    pub reject_full: u64,
}

/// The statistics after offering a word to the cache: the first test that
/// turns it away is counted, else its sighting, then a full cache or the
/// insertion; a word already stored or with readings that are not forward
/// edges counts only its sighting.
pub open spec fn admission_stats(s: WordTemplateCacheStats, word: Seq<char>, v: Seq<MorphInterpretation>, seen: bool,
    full: bool, skipped: bool) -> WordTemplateCacheStats {
    if encode_utf8(word).len() > WORD_TEMPLATE_MAX_WORD_BYTES {
        WordTemplateCacheStats { reject_len: bumped(s.reject_len), ..s }
    } else if v.len() > WORD_TEMPLATE_MAX_INTERPRETATIONS {
        WordTemplateCacheStats { reject_template_count: bumped(s.reject_template_count), ..s }
    } else if all_ign(v) {
        WordTemplateCacheStats { reject_admission: bumped(s.reject_admission), ..s }
    } else if !seen {
        WordTemplateCacheStats { first_seen: bumped(s.first_seen), ..s }
    } else if full {
        WordTemplateCacheStats { second_seen: bumped(s.second_seen), reject_full: bumped(s.reject_full), ..s }
    } else if skipped {
        WordTemplateCacheStats { second_seen: bumped(s.second_seen), ..s }
    } else {
        WordTemplateCacheStats { second_seen: bumped(s.second_seen), inserts: bumped(s.inserts), ..s }
    }
}

/// A counter one higher, staying at its largest value.
pub open spec fn bumped(x: u64) -> u64 {
    if x < u64::MAX { (x + 1) as u64 } else { x }
}

/// Cached word analyses, by hash, and the fingerprints seen once.
#[derive(Debug, Clone)]
pub struct WordTemplateCache {
    buckets: HashMap<u64, Vec<WordAnalysisTemplate>>,
    seen_once: Vec<u64>,
    entries: usize,
    stats: WordTemplateCacheStats,
}

/// The form the template gives a reading of `word`.
pub open spec fn template_orth(o: OrthTemplate, word: Seq<char>) -> Seq<char> {
    match o {
        OrthTemplate::InputWord => word,
        OrthTemplate::Owned(s) => s@,
    }
}

/// The reading is the template instantiated for `word` at node `start`.
pub open spec fn instantiated(m: MorphInterpretation, t: MorphInterpretationTemplate, word: Seq<char>, start: int) -> bool {
    &&& m.start_node == start + t.rel_start_node
    &&& m.end_node == start + t.rel_end_node
    &&& m.orth@ == template_orth(t.orth, word)
    &&& m.lemma@ == t.lemma@
    &&& m.tag_id == t.tag_id
    &&& m.name_id == t.name_id
    &&& m.labels_id == t.labels_id
}

/// The readings are the word's template instantiated at node `start`, in
/// order.
pub open spec fn all_instantiated(v: Seq<MorphInterpretation>, t: WordAnalysisTemplate, word: Seq<char>, start: int) -> bool {
    v.len() == t.interps@.len()
        && forall|i: int| 0 <= i < v.len() ==> instantiated(#[trigger] v[i], t.interps@[i], word, start)
}

/// The template holds the readings `v` of `word` found from node `start`,
/// with the next free node `next`.
pub open spec fn template_of(t: WordAnalysisTemplate, key: WordTemplateCacheKey, word: Seq<char>, v: Seq<MorphInterpretation>,
    start: int, next: int) -> bool {
    &&& t.hash == key.hash
    &&& t.config_key == key.config_key
    &&& t.word@ == word
    &&& t.next_node_delta == next - start
    &&& all_instantiated(v, t, word, start)
}

/// The cache does not change what an analysis gives: readings stored from
/// node `s1` and read back at node `s2` are the stored readings moved by
/// `s2 - s1`, in the same order, and the word takes as many nodes.
pub proof fn law_cached_readings_move(t: WordAnalysisTemplate, key: WordTemplateCacheKey, word: Seq<char>,
    v1: Seq<MorphInterpretation>, s1: int, n1: int, v2: Seq<MorphInterpretation>, s2: int, n2: int)
    requires
        template_of(t, key, word, v1, s1, n1),
        all_instantiated(v2, t, word, s2),
        n2 == s2 + t.next_node_delta,
    ensures
        v2.len() == v1.len(),
        n2 - s2 == n1 - s1,
        forall|i: int| 0 <= i < v2.len() ==> moved_reading(#[trigger] v2[i], v1[i], s2 - s1),
{
    assert forall|i: int| 0 <= i < v2.len() implies moved_reading(#[trigger] v2[i], v1[i], s2 - s1) by {
        assert(instantiated(v1[i], t.interps@[i], word, s1));
        assert(instantiated(v2[i], t.interps@[i], word, s2));
    }
}

/// Every template reading is an edge forward inside the word's nodes, and
/// the word takes at least one node and has a reading.
pub open spec fn template_wf(t: WordAnalysisTemplate) -> bool {
    &&& 0 < t.next_node_delta
    &&& t.interps@.len() > 0
    &&& forall|i: int| 0 <= i < t.interps@.len() ==> 0 <= (#[trigger] t.interps@[i]).rel_start_node
        && t.interps@[i].rel_start_node < t.interps@[i].rel_end_node && t.interps@[i].rel_end_node <= t.next_node_delta
}

/// Every reading is an unknown-word reading.
pub open spec fn all_ign(v: Seq<MorphInterpretation>) -> bool {
    forall|i: int| 0 <= i < v.len() ==> (#[trigger] v[i]).tag_id == 0
}

/// The readings are edges forward between nodes `start` and `next`, and
/// `next` lies after `start` within node numbers.
pub open spec fn forward_edges(v: Seq<MorphInterpretation>, start: int, next: int) -> bool {
    &&& start < next
    &&& next - start <= i32::MAX
    &&& forall|i: int| 0 <= i < v.len() ==> start <= (#[trigger] v[i]).start_node && v[i].start_node < v[i].end_node
        && v[i].end_node <= next
}

/// Whether a word is too long, has too many readings, or only unknown-word
/// readings, so that it is never cached.
pub open spec fn never_cached(word: Seq<char>, v: Seq<MorphInterpretation>) -> bool {
    ||| encode_utf8(word).len() > WORD_TEMPLATE_MAX_WORD_BYTES
    ||| v.len() > WORD_TEMPLATE_MAX_INTERPRETATIONS
    ||| all_ign(v)
}

/// The first template in the bucket stored for the key and word.
pub open spec fn bucket_find(b: Seq<WordAnalysisTemplate>, key: WordTemplateCacheKey, word: Seq<char>) -> Option<WordAnalysisTemplate>
    decreases b.len(),
{
    if b.len() == 0 {
        None
    } else if b[0].hash == key.hash && b[0].config_key == key.config_key && b[0].word@ == word {
        Some(b[0])
    } else {
        bucket_find(b.drop_first(), key, word)
    }
}

proof fn lemma_bucket_find_push(b: Seq<WordAnalysisTemplate>, t: WordAnalysisTemplate, key: WordTemplateCacheKey, word: Seq<char>)
    ensures
        bucket_find(b.push(t), key, word) == match bucket_find(b, key, word) {
            Some(x) => Some(x),
            None => if t.hash == key.hash && t.config_key == key.config_key && t.word@ == word { Some(t) } else { None },
        },
    decreases b.len(),
{
    if b.len() > 0 {
        assert(b.push(t).drop_first() =~= b.drop_first().push(t));
        assert(b.push(t)[0] == b[0]);
        lemma_bucket_find_push(b.drop_first(), t, key, word);
    } else {
        assert(b.push(t).drop_first() =~= Seq::<WordAnalysisTemplate>::empty());
        assert(b.push(t)[0] == t);
        assert(bucket_find(b.push(t).drop_first(), key, word) is None);
    }
}

proof fn lemma_bucket_find_in(b: Seq<WordAnalysisTemplate>, key: WordTemplateCacheKey, word: Seq<char>)
    ensures
        bucket_find(b, key, word) matches Some(x) ==> b.contains(x),
    decreases b.len(),
{
    if b.len() > 0 {
        lemma_bucket_find_in(b.drop_first(), key, word);
        if let Some(x) = bucket_find(b.drop_first(), key, word) {
            let j = choose|j: int| 0 <= j < b.drop_first().len() && b.drop_first()[j] == x;
            assert(b[j + 1] == x);
        }
        assert(b[0] == b[0]);
    }
}

/// The template is well formed and is the first in its bucket whose
/// options and word match.
pub open spec fn key_of(key: WordTemplateCacheKey, word: Seq<char>) -> (u64, u16, Seq<char>) {
    (key.hash, key.config_key, word)
}

impl View for WordTemplateCache {
    type V = Map<(u64, u16, Seq<char>), WordAnalysisTemplate>;

    /// The stored analyses, by hash, options' code and word.
    closed spec fn view(&self) -> Map<(u64, u16, Seq<char>), WordAnalysisTemplate> {
        Map::new(
            |k: (u64, u16, Seq<char>)| self.stored(WordTemplateCacheKey { hash: k.0, config_key: k.1 }, k.2) is Some,
            |k: (u64, u16, Seq<char>)| self.stored(WordTemplateCacheKey { hash: k.0, config_key: k.1 }, k.2).unwrap(),
        )
    }
}

impl WordTemplateCache {
    /// The analysis stored for the key and word, if any.
    pub closed spec fn stored(&self, key: WordTemplateCacheKey, word: Seq<char>) -> Option<WordAnalysisTemplate> {
        if self.buckets@.contains_key(key.hash) {
            bucket_find(self.buckets@[key.hash]@, key, word)
        } else {
            None
        }
    }

    /// The fingerprint last seen in the slot of `h`; 0 before any.
    pub closed spec fn seen_slot(&self, h: u64) -> u64 {
        if self.seen_once@.len() == WORD_TEMPLATE_SEEN_ONCE_SLOTS {
            self.seen_once@[(h % (WORD_TEMPLATE_SEEN_ONCE_SLOTS as u64)) as int]
        } else {
            0
        }
    }

    /// The number of analyses stored.
    pub closed spec fn entries_view(&self) -> int {
        self.entries as int
    }

    pub closed spec fn stats_view(&self) -> WordTemplateCacheStats {
        self.stats
    }

    /// Every stored template is well formed and every bucket holds only
    /// templates of its hash.
    pub closed spec fn wf(&self) -> bool {
        &&& (self.seen_once@.len() == 0 || self.seen_once@.len() == WORD_TEMPLATE_SEEN_ONCE_SLOTS)
        &&& forall|h: u64, i: int| #[trigger] self.buckets@.contains_key(h) && 0 <= i < self.buckets@[h]@.len()
            ==> template_wf(#[trigger] self.buckets@[h]@[i]) && self.buckets@[h]@[i].hash == h
    }

    /// An empty cache.
    pub fn new() -> (c: Self)
        ensures
            c.wf(),
            c@ == Map::<(u64, u16, Seq<char>), WordAnalysisTemplate>::empty(),
            forall|h: u64| c.seen_slot(h) == 0,
            c.entries_view() == 0,
            c.stats_view() == (WordTemplateCacheStats { lookups: 0, hits: 0, first_seen: 0, second_seen: 0, inserts: 0,
                reject_len: 0, reject_template_count: 0, reject_admission: 0, reject_full: 0 }),
    {
        let c = WordTemplateCache {
            buckets: HashMap::new(),
            seen_once: Vec::new(),
            entries: 0,
            stats: WordTemplateCacheStats { lookups: 0, hits: 0, first_seen: 0, second_seen: 0, inserts: 0,
                reject_len: 0, reject_template_count: 0, reject_admission: 0, reject_full: 0 },
        };
        assert(c@ =~= Map::<(u64, u16, Seq<char>), WordAnalysisTemplate>::empty());
        c
    }

    /// A stored analysis is well formed.
    pub proof fn lemma_stored_wf(&self, key: WordTemplateCacheKey, word: Seq<char>)
        requires
            self.wf(),
        ensures
            self.stored(key, word) matches Some(t) ==> template_wf(t),
    {
        if self.buckets@.contains_key(key.hash) {
            let b = self.buckets@[key.hash]@;
            lemma_bucket_find_in(b, key, word);
            if let Some(t) = bucket_find(b, key, word) {
                let j = choose|j: int| 0 <= j < b.len() && b[j] == t;
                assert(template_wf(self.buckets@[key.hash]@[j]));
            }
        }
    }

    /// The counts of lookups, hits, sightings, inserts and rejections.
    pub fn stats(&self) -> (r: WordTemplateCacheStats)
        ensures
            r == self.stats_view(),
    {
        self.stats
    }

    /// The readings of the template at node `start_node`, and the next free
    /// node.
    fn instantiate(t: &WordAnalysisTemplate, word: &str, start_node: i32) -> (r: (Vec<MorphInterpretation>, i32))
        requires
            template_wf(*t),
            start_node + t.next_node_delta <= i32::MAX,
        ensures
            all_instantiated(r.0@, *t, word@, start_node as int),
            r.1 == start_node + t.next_node_delta,
    {
        let mut out: Vec<MorphInterpretation> = Vec::new();
        let mut i: usize = 0;
        while i < t.interps.len()
            invariant
                template_wf(*t),
                start_node + t.next_node_delta <= i32::MAX,
                i <= t.interps@.len(),
                out@.len() == i,
                forall|k: int| 0 <= k < i ==> instantiated(#[trigger] out@[k], t.interps@[k], word@, start_node as int),
            decreases t.interps@.len() - i,
        {
            let it = &t.interps[i];
            assert(0 <= it.rel_start_node < it.rel_end_node <= t.next_node_delta);
            let orth = match &it.orth {
                OrthTemplate::InputWord => owned(word),
                OrthTemplate::Owned(o) => owned(o.as_str()),
            };
            out.push(MorphInterpretation {
                start_node: start_node + it.rel_start_node,
                end_node: start_node + it.rel_end_node,
                orth,
                lemma: owned(it.lemma.as_str()),
                tag_id: it.tag_id,
                name_id: it.name_id,
                labels_id: it.labels_id,
            });
            i = i + 1;
        }
        (out, start_node + t.next_node_delta)
    }

    fn find(&self, word: &str, key: WordTemplateCacheKey, start_node: i32) -> (r: Option<(Vec<MorphInterpretation>, i32)>)
        requires
            self.wf(),
        ensures
            r is Some ==> self.stored(key, word@) is Some,
            r matches Some((v, n)) ==> all_instantiated(v@, self.stored(key, word@).unwrap(), word@, start_node as int)
                && n == start_node + self.stored(key, word@).unwrap().next_node_delta,
            (self.stored(key, word@) matches Some(t) && start_node + t.next_node_delta <= i32::MAX) ==> r is Some,
    {
        let bucket = match self.buckets.get(&key.hash) {
            Some(b) => b,
            None => {
                return None;
            },
        };
        let ghost b = bucket@;
        let mut i: usize = 0;
        proof {
            assert(b.subrange(0, b.len() as int) =~= b);
        }
        while i < bucket.len()
            invariant
                self.wf(),
                bucket@ == b,
                self.buckets@.contains_key(key.hash),
                b == self.buckets@[key.hash]@,
                i <= b.len(),
                bucket_find(b, key, word@) == bucket_find(b.subrange(i as int, b.len() as int), key, word@),
            decreases b.len() - i,
        {
            let e = &bucket[i];
            proof {
                let rest = b.subrange(i as int, b.len() as int);
                assert(rest[0] == b[i as int]);
                assert(rest.drop_first() =~= b.subrange(i + 1, b.len() as int));
            }
            if e.hash == key.hash && e.config_key == key.config_key && str_eq(e.word.as_str(), word) {
                assert(template_wf(*e));
                if (e.next_node_delta as i64) > (i32::MAX as i64) - (start_node as i64) {
                    return None;
                }
                return Some(Self::instantiate(e, word, start_node));
            }
            i = i + 1;
        }
        proof {
            assert(b.subrange(i as int, b.len() as int) =~= Seq::<WordAnalysisTemplate>::empty());
        }
        None
    }

    /// Whether the fingerprint was the last one seen in its slot; records
    /// it there.
    fn seen_again(&mut self, fingerprint: u64) -> (r: bool)
        requires
            old(self).wf(),
        ensures
            final(self).wf(),
            final(self).buckets@ == old(self).buckets@,
            final(self).entries == old(self).entries,
            r == (old(self).seen_slot(fingerprint) == fingerprint),
            final(self).seen_slot(fingerprint) == fingerprint,
            final(self).stats == if r {
                WordTemplateCacheStats { second_seen: bumped(old(self).stats.second_seen), ..old(self).stats }
            } else {
                WordTemplateCacheStats { first_seen: bumped(old(self).stats.first_seen), ..old(self).stats }
            },
    {
        if self.seen_once.len() == 0 {
            let mut k: usize = 0;
            while k < WORD_TEMPLATE_SEEN_ONCE_SLOTS
                invariant
                    k <= WORD_TEMPLATE_SEEN_ONCE_SLOTS,
                    self.seen_once@.len() == k,
                    forall|j: int| 0 <= j < k ==> #[trigger] self.seen_once@[j] == 0,
                    self.buckets@ == old(self).buckets@,
                    self.entries == old(self).entries,
                    self.stats == old(self).stats,
                decreases WORD_TEMPLATE_SEEN_ONCE_SLOTS - k,
            {
                self.seen_once.push(0);
                k = k + 1;
            }
        }
        let index = (fingerprint % (WORD_TEMPLATE_SEEN_ONCE_SLOTS as u64)) as usize;
        if self.seen_once[index] == fingerprint {
            self.stats.second_seen = self.stats.second_seen.saturating_add(1);
            true
        } else {
            self.seen_once.set(index, fingerprint);
            self.stats.first_seen = self.stats.first_seen.saturating_add(1);
            false
        }
    }

    /// The template of readings found from `start_node` with the next free
    /// node `next_node`; `None` when they are not edges forward between
    /// those nodes.
    fn template_from_result(word: &str, key: WordTemplateCacheKey, interps: &[MorphInterpretation], start_node: i32,
        next_node: i32) -> (r: Option<WordAnalysisTemplate>)
        ensures
            r is Some <==> forward_edges(interps@, start_node as int, next_node as int),
            r matches Some(t) ==> template_of(t, key, word@, interps@, start_node as int, next_node as int),
            r matches Some(t) ==> (interps@.len() > 0 ==> template_wf(t)),
    {
        if (next_node as i64) <= (start_node as i64) || (next_node as i64) - (start_node as i64) > (i32::MAX as i64) {
            return None;
        }
        let delta = ((next_node as i64) - (start_node as i64)) as i32;
        let mut out: Vec<MorphInterpretationTemplate> = Vec::new();
        let mut i: usize = 0;
        while i < interps.len()
            invariant
                start_node < next_node,
                next_node - start_node <= i32::MAX,
                delta == next_node - start_node,
                i <= interps@.len(),
                out@.len() == i,
                forall|k: int| 0 <= k < i ==> start_node <= (#[trigger] interps@[k]).start_node
                    && interps@[k].start_node < interps@[k].end_node && interps@[k].end_node <= next_node,
                forall|k: int| 0 <= k < i ==> instantiated(interps@[k], #[trigger] out@[k], word@, start_node as int),
                forall|k: int| 0 <= k < i ==> 0 <= (#[trigger] out@[k]).rel_start_node && out@[k].rel_start_node < out@[k].rel_end_node
                    && out@[k].rel_end_node <= delta,
            decreases interps@.len() - i,
        {
            let m = &interps[i];
            if m.start_node < start_node || m.start_node >= m.end_node || m.end_node > next_node {
                return None;
            }
            let orth = if str_eq(m.orth.as_str(), word) {
                OrthTemplate::InputWord
            } else {
                OrthTemplate::Owned(owned(m.orth.as_str()))
            };
            out.push(MorphInterpretationTemplate {
                rel_start_node: m.start_node - start_node,
                rel_end_node: m.end_node - start_node,
                orth,
                lemma: owned(m.lemma.as_str()),
                tag_id: m.tag_id,
                name_id: m.name_id,
                labels_id: m.labels_id,
            });
            i = i + 1;
        }
        let t = WordAnalysisTemplate { hash: key.hash, config_key: key.config_key, word: owned(word), next_node_delta: delta, interps: out };
        Some(t)
    }

    /// Remembers the readings of a word found from `start_node`, with the
    /// next free node: never for a word that is too long, has too many
    /// readings or only unknown-word ones; otherwise on its second sighting
    /// (by hash), while the cache is not full and the word is not stored.
    pub fn insert_if_admitted(&mut self, word: &str, key: WordTemplateCacheKey, interps: &[MorphInterpretation], start_node: i32,
        next_node: i32)
        requires
            old(self).wf(),
        ensures
            final(self).wf(),
            never_cached(word@, interps@) ==> final(self)@ == old(self)@
                && (forall|h: u64| #[trigger] final(self).seen_slot(h) == old(self).seen_slot(h))
                && final(self).entries_view() == old(self).entries_view(),
            !never_cached(word@, interps@) ==> final(self).seen_slot(key.hash) == key.hash,
            !never_cached(word@, interps@) && (old(self).seen_slot(key.hash) != key.hash
                || old(self).entries_view() >= WORD_TEMPLATE_CACHE_MAX_WORDS
                || old(self)@.contains_key(key_of(key, word@))
                || !forward_edges(interps@, start_node as int, next_node as int))
                ==> final(self)@ == old(self)@ && final(self).entries_view() == old(self).entries_view(),
            !never_cached(word@, interps@) && old(self).seen_slot(key.hash) == key.hash
                && old(self).entries_view() < WORD_TEMPLATE_CACHE_MAX_WORDS
                && !old(self)@.contains_key(key_of(key, word@))
                && forward_edges(interps@, start_node as int, next_node as int)
                ==> final(self).entries_view() == old(self).entries_view() + 1
                    && exists|t: WordAnalysisTemplate| template_of(t, key, word@, interps@, start_node as int, next_node as int)
                        && final(self)@ == old(self)@.insert(key_of(key, word@), t),
            final(self).stats_view() == admission_stats(old(self).stats_view(), word@, interps@,
                old(self).seen_slot(key.hash) == key.hash, old(self).entries_view() >= WORD_TEMPLATE_CACHE_MAX_WORDS,
                old(self)@.contains_key(key_of(key, word@)) || !forward_edges(interps@, start_node as int, next_node as int)),
    {
        let bytes = word.as_bytes();
        assert(bytes@ == encode_utf8(word@));
        if bytes.len() > WORD_TEMPLATE_MAX_WORD_BYTES {
            self.stats.reject_len = self.stats.reject_len.saturating_add(1);
            proof { assert(self@ =~= old(self)@); }
            return;
        }
        if interps.len() > WORD_TEMPLATE_MAX_INTERPRETATIONS {
            self.stats.reject_template_count = self.stats.reject_template_count.saturating_add(1);
            proof { assert(self@ =~= old(self)@); }
            return;
        }
        let mut any_known = false;
        let mut i: usize = 0;
        while i < interps.len()
            invariant
                i <= interps@.len(),
                any_known == exists|k: int| 0 <= k < i && (#[trigger] interps@[k]).tag_id != 0,
            decreases interps@.len() - i,
        {
            if !interps[i].is_ign() {
                any_known = true;
            }
            i = i + 1;
        }
        if !any_known {
            self.stats.reject_admission = self.stats.reject_admission.saturating_add(1);
            proof { assert(self@ =~= old(self)@); }
            return;
        }
        assert(!never_cached(word@, interps@));
        let ghost before_seen = *self;
        if !self.seen_again(key.hash) {
            proof { assert(self@ =~= old(self)@); }
            return;
        }
        proof { assert(self@ =~= old(self)@); }
        if self.entries >= WORD_TEMPLATE_CACHE_MAX_WORDS {
            self.stats.reject_full = self.stats.reject_full.saturating_add(1);
            proof { assert(self@ =~= old(self)@); }
            return;
        }
        if self.find(word, key, 0).is_some() {
            proof { assert(self@ =~= old(self)@); }
            return;
        }
        let t = match Self::template_from_result(word, key, interps, start_node, next_node) {
            Some(t) => t,
            None => {
                proof { assert(self@ =~= old(self)@); }
                return;
            },
        };
        let ghost mid = *self;
        let ghost tv = t;
        let mut bucket = match self.buckets.remove(&key.hash) {
            Some(b) => b,
            None => Vec::new(),
        };
        let ghost old_bucket = bucket@;
        bucket.push(t);
        self.buckets.insert(key.hash, bucket);
        self.entries = self.entries + 1;
        self.stats.inserts = self.stats.inserts.saturating_add(1);
        proof {
            assert(old_bucket == if mid.buckets@.contains_key(key.hash) { mid.buckets@[key.hash]@ } else { Seq::<WordAnalysisTemplate>::empty() });
            assert(self.buckets@ == mid.buckets@.insert(key.hash, self.buckets@[key.hash]));
            assert(self.buckets@[key.hash]@ == old_bucket.push(tv));
            assert(template_wf(tv));
            assert forall|h: u64, j: int| #[trigger] self.buckets@.contains_key(h) && 0 <= j < self.buckets@[h]@.len()
                implies template_wf(#[trigger] self.buckets@[h]@[j]) && self.buckets@[h]@[j].hash == h by {
                if h != key.hash {
                    assert(self.buckets@[h] == mid.buckets@[h]);
                } else if j < old_bucket.len() {
                    assert(self.buckets@[h]@[j] == mid.buckets@[h]@[j]);
                }
            }
            assert forall|k: (u64, u16, Seq<char>)| #![trigger self@.contains_key(k)]
                (self@.contains_key(k) == old(self)@.insert(key_of(key, word@), tv).contains_key(k))
                && (self@.contains_key(k) ==> self@[k] == old(self)@.insert(key_of(key, word@), tv)[k]) by {
                let kk = WordTemplateCacheKey { hash: k.0, config_key: k.1 };
                if k.0 == key.hash {
                    lemma_bucket_find_push(old_bucket, tv, kk, k.2);
                    if !mid.buckets@.contains_key(key.hash) {
                        assert(bucket_find(Seq::<WordAnalysisTemplate>::empty(), kk, k.2) is None);
                    }
                }
            }
            assert(self@ =~= old(self)@.insert(key_of(key, word@), tv));
        }
    }

    /// The stored analysis of the word under the key, instantiated at
    /// `start_node`, with the next free node; `None` when none is stored
    /// (or when its nodes would run past the last node number).
    pub fn get(&mut self, word: &str, key: WordTemplateCacheKey, start_node: i32) -> (r: Option<(Vec<MorphInterpretation>, i32)>)
        requires
            old(self).wf(),
        ensures
            final(self).wf(),
            final(self)@ == old(self)@,
            forall|h: u64| #[trigger] final(self).seen_slot(h) == old(self).seen_slot(h),
            final(self).entries_view() == old(self).entries_view(),
            r is Some ==> old(self).stored(key, word@) is Some,
            r matches Some((v, n)) ==> all_instantiated(v@, old(self).stored(key, word@).unwrap(), word@, start_node as int)
                && n == start_node + old(self).stored(key, word@).unwrap().next_node_delta,
            (old(self).stored(key, word@) matches Some(t) && start_node + t.next_node_delta <= i32::MAX) ==> r is Some,
            final(self).stats_view() == (WordTemplateCacheStats { lookups: bumped(old(self).stats_view().lookups),
                hits: if r is Some { bumped(old(self).stats_view().hits) } else { old(self).stats_view().hits },
                ..old(self).stats_view() }),
    {
        let r = self.find(word, key, start_node);
        self.stats.lookups = self.stats.lookups.saturating_add(1);
        if r.is_some() {
            self.stats.hits = self.stats.hits.saturating_add(1);
        }
        proof {
            assert(self@ =~= old(self)@);
        }
        r
    }
}

pub const FNV_OFFSET_BASIS: u64 = 0xcbf2_9ce4_8422_2325;
pub const FNV_PRIME: u64 = 0x1000_0000_01b3;

/// The FNV-1a hash of the bytes, from `h`.
#[verifier::opaque]
pub open spec fn fnv_from(h: u64, bytes: Seq<u8>) -> u64
    decreases bytes.len(),
{
    if bytes.len() == 0 {
        h
    } else {
        ((fnv_from(h, bytes.drop_last()) ^ (bytes.last() as u64)) as u64).wrapping_mul(FNV_PRIME)
    }
}

/// The cache hash of a word's bytes and the options' code: FNV-1a over the
/// bytes and then the code's two bytes, low first, with 1 in place of 0.
pub open spec fn template_hash(bytes: Seq<u8>, config_key: u16) -> u64 {
    let h = fnv_from(FNV_OFFSET_BASIS, bytes + seq![(config_key % 256) as u8, (config_key / 256) as u8]);
    if h == 0 { 1 } else { h }
}

proof fn lemma_fnv_push(h: u64, s: Seq<u8>, b: u8)
    ensures
        fnv_from(h, s.push(b)) == ((fnv_from(h, s) ^ (b as u64)) as u64).wrapping_mul(FNV_PRIME),
{
    reveal(fnv_from);
    assert(s.push(b).drop_last() =~= s);
}

fn fnv_step(h: u64, b: u8) -> (r: u64)
    ensures
        r == ((h ^ (b as u64)) as u64).wrapping_mul(FNV_PRIME),
{
    (h ^ (b as u64)).wrapping_mul(FNV_PRIME)
}

/// The cache hash of a word and the options' code.
pub fn word_template_hash(word: &str, config_key: u16) -> (r: u64)
    ensures
        r == template_hash(encode_utf8(word@), config_key),
        r != 0,
{
    let bytes = word.as_bytes();
    assert(bytes@ == encode_utf8(word@));
    let ghost all = bytes@ + seq![(config_key % 256) as u8, (config_key / 256) as u8];
    let mut hash: u64 = FNV_OFFSET_BASIS;
    let mut i: usize = 0;
    proof {
        assert(all.take(0) =~= Seq::<u8>::empty());
        reveal(fnv_from);
    }
    while i < bytes.len()
        invariant
            i <= bytes@.len(),
            all == bytes@ + seq![(config_key % 256) as u8, (config_key / 256) as u8],
            hash == fnv_from(FNV_OFFSET_BASIS, all.take(i as int)),
        decreases bytes@.len() - i,
    {
        proof {
            assert(all.take(i + 1) =~= all.take(i as int).push(bytes@[i as int]));
            lemma_fnv_push(FNV_OFFSET_BASIS, all.take(i as int), bytes@[i as int]);
        }
        hash = fnv_step(hash, bytes[i]);
        i = i + 1;
    }
    let low: u8 = (config_key % 256) as u8;
    let high: u8 = (config_key / 256) as u8;
    let n = bytes.len();
    proof {
        assert(all.take(n + 1) =~= all.take(n as int).push(low));
        lemma_fnv_push(FNV_OFFSET_BASIS, all.take(n as int), low);
    }
    hash = fnv_step(hash, low);
    proof {
        assert(all.take(n + 2) =~= all.take(n + 1).push(high));
        lemma_fnv_push(FNV_OFFSET_BASIS, all.take(n + 1), high);
        assert(all.take(n + 2) =~= all);
    }
    hash = fnv_step(hash, high);
    if hash == 0 {
        1
    } else {
        hash
    }
}

} // verus!
