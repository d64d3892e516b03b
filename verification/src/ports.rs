//! What the engine asks of a lexicon.
use vstd::prelude::*;
use crate::config::SegmentationPreset;
use crate::dictionary::{entries_view, entry_to_interpretation, entry_view, DictionaryEntry, EntryView};
use crate::ordered::str_views;
use crate::error::Result;
use crate::id_resolver::IdResolver;
use crate::text::owned;
use crate::types::{CaseHandling, MorphInterpretation};

verus! {

/// Every reading is an edge between nodes `lo` and `hi`.
pub open spec fn nodes_within(v: Seq<MorphInterpretation>, lo: int, hi: int) -> bool {
    forall|i: int| 0 <= i < v.len() ==> lo <= (#[trigger] v[i]).start_node && v[i].end_node <= hi
}

/// The characters of an optional string.
pub open spec fn str_option(o: Option<&str>) -> Option<Seq<char>> {
    match o {
        Some(s) => Some(s@),
        None => None,
    }
}

/// Every reading is the edge `start..end`.
pub open spec fn all_on_edge(v: Seq<MorphInterpretation>, start: int, end: int) -> bool {
    forall|i: int| 0 <= i < v.len() ==> (#[trigger] v[i]).start_node == start && v[i].end_node == end
}

/// The entries of an optional slice.
pub open spec fn entries_option(o: Option<&[DictionaryEntry]>) -> Option<Seq<EntryView>> {
    match o {
        Some(s) => Some(entries_view(s@)),
        None => None,
    }
}

/// The reading is the entry as the edge `start..end`, reported with `orth`.
pub open spec fn reading_of(m: MorphInterpretation, e: EntryView, start: int, end: int, orth: Seq<char>) -> bool {
    &&& m.start_node == start
    &&& m.end_node == end
    &&& m.orth@ == orth
    &&& m.lemma@ == e.lemma
    &&& m.tag_id == e.tag_id
    &&& m.name_id == e.name_id
    &&& m.labels_id == e.labels_id
}

/// One reading per entry, in order, each the edge `start..end` reported
/// with `orth`.
pub open spec fn readings_of(v: Seq<MorphInterpretation>, entries: Seq<EntryView>, start: int, end: int, orth: Seq<char>) -> bool {
    v.len() == entries.len() && forall|i: int| 0 <= i < v.len() ==> reading_of(#[trigger] v[i], entries[i], start, end, orth)
}

/// One generated form per entry, in order, each with the entry's own form
/// and no nodes.
pub open spec fn forms_of(v: Seq<MorphInterpretation>, entries: Seq<EntryView>) -> bool {
    v.len() == entries.len() && forall|i: int| 0 <= i < v.len() ==> reading_of(#[trigger] v[i], entries[i], 0, 0, entries[i].orth)
}

/// A source of readings for the engine: a dictionary of entries or a
/// binary analyzer and generator.
pub trait Lexicon {
    /// The lexicon's invariant.
    spec fn lexicon_wf(&self) -> bool;

    /// The dictionary's id.
    spec fn spec_id(&self) -> Seq<char>;

    /// The dictionary's copyright notice.
    spec fn spec_copyright(&self) -> Seq<char>;

    fn id(&self) -> (r: &str)
        ensures
            r@ == self.spec_id(),
    ;

    fn copyright(&self) -> (r: &str)
        ensures
            r@ == self.spec_copyright(),
    ;

    /// The tagset the lexicon's ids refer to.
    spec fn spec_resolver(&self) -> IdResolver;

    fn resolver(&self) -> (r: &IdResolver)
        requires
            self.lexicon_wf(),
        ensures
            r.wf(),
            *r == self.spec_resolver(),
    ;

    /// The entries the lexicon keeps under a form, if any.
    spec fn spec_lookup(&self, orth: Seq<char>) -> Option<Seq<EntryView>>;

    /// The entries the lexicon keeps under a lemma, if any.
    spec fn spec_synthesize(&self, lemma: Seq<char>) -> Option<Seq<EntryView>>;

    fn lookup(&self, orth: &str) -> (r: Option<&[DictionaryEntry]>)
        requires
            self.lexicon_wf(),
        ensures
            entries_option(r) == self.spec_lookup(orth@),
    ;

    fn synthesize(&self, lemma: &str) -> (r: Option<&[DictionaryEntry]>)
        requires
            self.lexicon_wf(),
        ensures
            entries_option(r) == self.spec_synthesize(lemma@),
    ;

    /// The dictionary's own `aggl` option, used where none is chosen.
    fn default_aggl(&self) -> Option<&str>
        requires
            self.lexicon_wf(),
    {
        None
    }

    /// The dictionary's own `praet` option, used where none is chosen.
    fn default_praet(&self) -> Option<&str>
        requires
            self.lexicon_wf(),
    {
        None
    }

    /// The standard `aggl` values.
    fn available_aggl_options(&self) -> (r: Vec<String>)
        requires
            self.lexicon_wf(),
        default_ensures
            str_views(r@) == seq!["strict"@, "permissive"@, "isolated"@],
    {
        let mut v: Vec<String> = Vec::new();
        v.push(owned("strict"));
        v.push(owned("permissive"));
        v.push(owned("isolated"));
        proof {
            assert(str_views(v@) =~= seq!["strict"@, "permissive"@, "isolated"@]);
        }
        v
    }

    /// The standard `praet` values.
    fn available_praet_options(&self) -> (r: Vec<String>)
        requires
            self.lexicon_wf(),
        default_ensures
            str_views(r@) == seq!["split"@, "composite"@],
    {
        let mut v: Vec<String> = Vec::new();
        v.push(owned("split"));
        v.push(owned("composite"));
        proof {
            assert(str_views(v@) =~= seq!["split"@, "composite"@]);
        }
        v
    }

    /// Without segmentation rules every option value is accepted.
    fn validate_segmentation(&self, segmentation: &SegmentationPreset, option: &str, value: &str) -> (r: Result<()>)
        requires
            self.lexicon_wf(),
        ensures
            r matches Err(e) ==> e is InvalidArgument,
        default_ensures
            r is Ok,
    {
        Ok(())
    }

    /// Whether whole words go to `analyze_native_word`.
    fn is_native_analyzer(&self) -> (r: bool)
        default_ensures
            !r,
    {
        false
    }

    /// The readings of one word and the next free node.
    fn analyze_native_word(&self, word: &str, start_node: i32, case_handling: CaseHandling, segmentation: &SegmentationPreset) -> (r: Result<(Vec<MorphInterpretation>, i32)>)
        requires
            self.lexicon_wf(),
            0 <= start_node,
        ensures
            r matches Ok((v, next)) ==> start_node <= next && nodes_within(v@, start_node as int, next as int),
        default_ensures
            r matches Ok((v, next)) && v@.len() == 0 && next == start_node,
    {
        Ok((Vec::new(), start_node))
    }

    fn analyze_word_interpretations(&self, orth: &str, start_node: i32, case_handling: CaseHandling, segmentation: &SegmentationPreset) -> (r: Result<Option<(Vec<MorphInterpretation>, i32)>>)
        requires
            self.lexicon_wf(),
            0 <= start_node,
        ensures
            r matches Ok(Some((v, n))) ==> n > 0 && nodes_within(v@, start_node as int, start_node + n),
        default_ensures
            r matches Ok(None),
    {
        Ok(None)
    }

    /// The readings of a form as one edge, reported with `result_orth`.
    fn lookup_interpretations(&self, orth: &str, start_node: i32, end_node: i32, result_orth: &str, case_handling: CaseHandling, segmentation: &SegmentationPreset) -> (r: Result<Option<Vec<MorphInterpretation>>>)
        requires
            self.lexicon_wf(),
        ensures
            r matches Ok(Some(v)) ==> all_on_edge(v@, start_node as int, end_node as int),
        default_ensures
            match self.spec_lookup(orth@) {
                Some(es) => (r matches Ok(Some(v)) && readings_of(v@, es, start_node as int, end_node as int, result_orth@)),
                None => r matches Ok(None),
            },
    {
        match self.lookup(orth) {
            Some(entries) => {
                let mut out: Vec<MorphInterpretation> = Vec::new();
                let mut i: usize = 0;
                while i < entries.len()
                    invariant
                        i <= entries@.len(),
                        out@.len() == i,
                        forall|k: int| 0 <= k < i ==> reading_of(#[trigger] out@[k], entry_view(entries@[k]),
                            start_node as int, end_node as int, result_orth@),
                    decreases entries@.len() - i,
                {
                    out.push(entry_to_interpretation(&entries[i], start_node, end_node, owned(result_orth)));
                    i = i + 1;
                }
                Ok(Some(out))
            },
            None => Ok(None),
        }
    }

    /// The forms generated from a lemma: one per entry kept under it.
    fn synthesize_interpretations(&self, lemma: &str, segmentation: &SegmentationPreset) -> (r: Result<Vec<MorphInterpretation>>)
        requires
            self.lexicon_wf(),
        default_ensures
            r matches Ok(v) && forms_of(v@, match self.spec_synthesize(lemma@) {
                Some(es) => es,
                None => Seq::<EntryView>::empty(),
            }),
    {
        let mut out: Vec<MorphInterpretation> = Vec::new();
        match self.synthesize(lemma) {
            Some(entries) => {
                let mut i: usize = 0;
                while i < entries.len()
                    invariant
                        i <= entries@.len(),
                        out@.len() == i,
                        forall|k: int| 0 <= k < i ==> reading_of(#[trigger] out@[k], entry_view(entries@[k]), 0, 0,
                            entries@[k].orth@),
                    decreases entries@.len() - i,
                {
                    out.push(entry_to_interpretation(&entries[i], 0, 0, owned(entries[i].orth.as_str())));
                    i = i + 1;
                }
            },
            None => {},
        }
        Ok(out)
    }
}

} // verus!
