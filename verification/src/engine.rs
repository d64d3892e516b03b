//! The analysis engine: splitting text into words and whitespace, asking
//! the lexicon for the readings of each word, numbering the nodes of the
//! result, and generating forms from lemmas.
use vstd::prelude::*;
use std::sync::Arc;
use crate::binary::analyzer::{node_at, BinaryAnalyzerLexicon};
use crate::binary::cache::WordTemplateCache;
use crate::binary::generator::BinaryGeneratorLexicon;
use crate::binary::lexicon::BinaryLexicon;
use crate::config::{same_config, Config, NumberingScope, SegmentationPreset};
use crate::dictionary::{all_digits, entries_view, entry_view, entry_to_interpretation, tsv_digit_interpretation, Dictionary, DictionaryEntry, EntryView};
use crate::error::{Error, Result};
use crate::id_resolver::IdResolver;
use crate::ports::{entries_option, all_on_edge, nodes_within, reading_of, readings_of, str_option, Lexicon};
use crate::ordered::str_views;
use crate::binary::segmentation::sorted_listing;
use crate::text::{signed_decimal, ascii_upper, 
    chars_of, is_alphanumeric, alnum_of, owned, push_str, str_eq, string_from_char_range, to_ascii_upper,
};
use crate::types::{move_readings, moved_reading, readings_movable, CaseHandling, MorphInterpretation, WhitespaceHandling};

verus! {

/// The lexicons an engine can run on.
#[derive(Debug, Clone)]
pub enum AnyLexicon {
    Dictionary(Dictionary),
    Binary(BinaryLexicon),
    Analyzer(BinaryAnalyzerLexicon),
    Generator(BinaryGeneratorLexicon),
}

impl AnyLexicon {
    /// The `aggl` values the lexicon offers: the standard ones for a text
    /// dictionary, those of its rule variants, in order, for a binary one.
    pub open spec fn aggl_listed(&self, r: Seq<Seq<char>>) -> bool {
        match self {
            AnyLexicon::Dictionary(_) => r == seq!["strict"@, "permissive"@, "isolated"@],
            AnyLexicon::Binary(b) => sorted_listing(r, b.option_values_view("aggl"@)),
            AnyLexicon::Analyzer(a) => sorted_listing(r, a.option_values_view("aggl"@)),
            AnyLexicon::Generator(g) => sorted_listing(r, g.option_values_view("aggl"@)),
        }
    }

    /// The `praet` values the lexicon offers, as `aggl_listed` says.
    pub open spec fn praet_listed(&self, r: Seq<Seq<char>>) -> bool {
        match self {
            AnyLexicon::Dictionary(_) => r == seq!["split"@, "composite"@],
            AnyLexicon::Binary(b) => sorted_listing(r, b.option_values_view("praet"@)),
            AnyLexicon::Analyzer(a) => sorted_listing(r, a.option_values_view("praet"@)),
            AnyLexicon::Generator(g) => sorted_listing(r, g.option_values_view("praet"@)),
        }
    }

    /// The value the dictionary itself gives an option: none for a text
    /// dictionary, the segmentation section's default for a binary one.
    pub open spec fn default_option_of(&self, option: Seq<char>) -> Option<Seq<char>> {
        match self {
            AnyLexicon::Dictionary(_) => None,
            AnyLexicon::Binary(b) => b.default_option_view(option),
            AnyLexicon::Analyzer(a) => a.default_option_view(option),
            AnyLexicon::Generator(g) => g.default_option_view(option),
        }
    }
}

impl AnyLexicon {
    /// The readings of one word and the next free node, through the
    /// word-template cache where the lexicon has an analyzer automaton.
    pub fn analyze_native_word_cached(&self, cache: &mut WordTemplateCache, word: &str, start_node: i32, case_handling: CaseHandling,
        segmentation: &SegmentationPreset) -> (r: Result<(Vec<MorphInterpretation>, i32)>)
        requires
            self.lexicon_wf(),
            0 <= start_node,
            old(cache).wf(),
        ensures
            final(cache).wf(),
            r matches Ok((v, next)) ==> start_node <= next && nodes_within(v@, start_node as int, next as int),
            self.without_analyzer() ==> (r matches Ok((v, next)) && v@.len() == 0 && next == start_node),
    {
        match self {
            AnyLexicon::Analyzer(a) => a.process_one_word_cached(cache, word, start_node, case_handling, segmentation),
            AnyLexicon::Binary(b) => b.analyze_native_word_cached(cache, word, start_node, case_handling, segmentation),
            _ => self.analyze_native_word(word, start_node, case_handling, segmentation),
        }
    }

    /// Whether the lexicon accepts the preset after `option` was set: a
    /// text dictionary always, a binary one as its segmentation sections say.
    pub open spec fn accepts_view(&self, preset: SegmentationPreset, option: Seq<char>) -> bool {
        match self {
            AnyLexicon::Dictionary(_) => true,
            AnyLexicon::Binary(b) => b.accepts_view(preset, option),
            AnyLexicon::Analyzer(a) => a.accepts_view(preset, option),
            AnyLexicon::Generator(g) => g.accepts_view(preset, option),
        }
    }

    /// Whether the lexicon analyzes whole words itself: a binary analyzer.
    pub open spec fn native_view(&self) -> bool {
        ||| self is Analyzer
        ||| (self matches AnyLexicon::Binary(b) && b.has_analyzer())
    }

    /// Whether the lexicon has no analyzer automaton, so that a word's
    /// readings come from its entries alone.
    pub open spec fn without_analyzer(&self) -> bool {
        ||| self is Dictionary
        ||| self is Generator
        ||| (self matches AnyLexicon::Binary(b) && !b.has_analyzer())
    }
}

impl Lexicon for AnyLexicon {
    open spec fn lexicon_wf(&self) -> bool {
        match self {
            AnyLexicon::Dictionary(d) => d.lexicon_wf(),
            AnyLexicon::Binary(b) => b.lexicon_wf(),
            AnyLexicon::Analyzer(a) => a.lexicon_wf(),
            AnyLexicon::Generator(g) => g.lexicon_wf(),
        }
    }

    open spec fn spec_id(&self) -> Seq<char> {
        match self {
            AnyLexicon::Dictionary(d) => Lexicon::spec_id(d),
            AnyLexicon::Binary(b) => Lexicon::spec_id(b),
            AnyLexicon::Analyzer(a) => a.spec_id(),
            AnyLexicon::Generator(g) => g.spec_id(),
        }
    }

    open spec fn spec_copyright(&self) -> Seq<char> {
        match self {
            AnyLexicon::Dictionary(d) => Lexicon::spec_copyright(d),
            AnyLexicon::Binary(b) => Lexicon::spec_copyright(b),
            AnyLexicon::Analyzer(a) => a.spec_copyright(),
            AnyLexicon::Generator(g) => g.spec_copyright(),
        }
    }

    fn id(&self) -> &str {
        match self {
            AnyLexicon::Dictionary(d) => Lexicon::id(d),
            AnyLexicon::Binary(b) => b.id(),
            AnyLexicon::Analyzer(a) => a.id(),
            AnyLexicon::Generator(g) => g.id(),
        }
    }

    fn copyright(&self) -> &str {
        match self {
            AnyLexicon::Dictionary(d) => Lexicon::copyright(d),
            AnyLexicon::Binary(b) => b.copyright(),
            AnyLexicon::Analyzer(a) => a.copyright(),
            AnyLexicon::Generator(g) => g.copyright(),
        }
    }

    open spec fn spec_resolver(&self) -> IdResolver {
        match self {
            AnyLexicon::Dictionary(d) => d.spec_resolver(),
            AnyLexicon::Binary(b) => b.spec_resolver(),
            AnyLexicon::Analyzer(a) => a.spec_resolver(),
            AnyLexicon::Generator(g) => g.spec_resolver(),
        }
    }

    fn resolver(&self) -> (r: &IdResolver) {
        match self {
            AnyLexicon::Dictionary(d) => Lexicon::resolver(d),
            AnyLexicon::Binary(b) => b.resolver(),
            AnyLexicon::Analyzer(a) => a.resolver(),
            AnyLexicon::Generator(g) => g.resolver(),
        }
    }

    open spec fn spec_lookup(&self, orth: Seq<char>) -> Option<Seq<EntryView>> {
        match self {
            AnyLexicon::Dictionary(d) => d.spec_lookup(orth),
            AnyLexicon::Binary(b) => b.spec_lookup(orth),
            AnyLexicon::Analyzer(a) => a.spec_lookup(orth),
            AnyLexicon::Generator(g) => g.spec_lookup(orth),
        }
    }

    open spec fn spec_synthesize(&self, lemma: Seq<char>) -> Option<Seq<EntryView>> {
        match self {
            AnyLexicon::Dictionary(d) => d.spec_synthesize(lemma),
            AnyLexicon::Binary(b) => b.spec_synthesize(lemma),
            AnyLexicon::Analyzer(a) => a.spec_synthesize(lemma),
            AnyLexicon::Generator(g) => g.spec_synthesize(lemma),
        }
    }

    fn lookup(&self, orth: &str) -> Option<&[DictionaryEntry]> {
        match self {
            AnyLexicon::Dictionary(d) => Lexicon::lookup(d, orth),
            _ => None,
        }
    }

    fn synthesize(&self, lemma: &str) -> Option<&[DictionaryEntry]> {
        match self {
            AnyLexicon::Dictionary(d) => Lexicon::synthesize(d, lemma),
            _ => None,
        }
    }

    fn default_aggl(&self) -> (r: Option<&str>)
        ensures
            str_option(r) == self.default_option_of("aggl"@),
    {
        match self {
            AnyLexicon::Dictionary(d) => None,
            AnyLexicon::Binary(b) => b.default_aggl(),
            AnyLexicon::Analyzer(a) => a.default_aggl(),
            AnyLexicon::Generator(g) => g.default_aggl(),
        }
    }

    fn default_praet(&self) -> (r: Option<&str>)
        ensures
            str_option(r) == self.default_option_of("praet"@),
    {
        match self {
            AnyLexicon::Dictionary(d) => None,
            AnyLexicon::Binary(b) => b.default_praet(),
            AnyLexicon::Analyzer(a) => a.default_praet(),
            AnyLexicon::Generator(g) => g.default_praet(),
        }
    }

    fn available_aggl_options(&self) -> (r: Vec<String>)
        ensures
            self.aggl_listed(str_views(r@)),
    {
        match self {
            AnyLexicon::Dictionary(d) => d.available_aggl_options(),
            AnyLexicon::Binary(b) => b.available_aggl_options(),
            AnyLexicon::Analyzer(a) => a.available_aggl_options(),
            AnyLexicon::Generator(g) => g.available_aggl_options(),
        }
    }

    fn available_praet_options(&self) -> (r: Vec<String>)
        ensures
            self.praet_listed(str_views(r@)),
    {
        match self {
            AnyLexicon::Dictionary(d) => d.available_praet_options(),
            AnyLexicon::Binary(b) => b.available_praet_options(),
            AnyLexicon::Analyzer(a) => a.available_praet_options(),
            AnyLexicon::Generator(g) => g.available_praet_options(),
        }
    }

    fn validate_segmentation(&self, segmentation: &SegmentationPreset, option: &str, value: &str) -> (r: Result<()>)
        ensures
            r is Ok <==> self.accepts_view(*segmentation, option@),
    {
        match self {
            AnyLexicon::Dictionary(d) => d.validate_segmentation(segmentation, option, value),
            AnyLexicon::Binary(b) => b.validate_segmentation(segmentation, option, value),
            AnyLexicon::Analyzer(a) => Lexicon::validate_segmentation(a, segmentation, option, value),
            AnyLexicon::Generator(g) => Lexicon::validate_segmentation(g, segmentation, option, value),
        }
    }

    fn is_native_analyzer(&self) -> (r: bool)
        ensures
            r == self.native_view(),
    {
        match self {
            AnyLexicon::Dictionary(d) => d.is_native_analyzer(),
            AnyLexicon::Binary(b) => b.is_native_analyzer(),
            AnyLexicon::Analyzer(a) => a.is_native_analyzer(),
            AnyLexicon::Generator(g) => g.is_native_analyzer(),
        }
    }

    fn analyze_native_word(&self, word: &str, start_node: i32, case_handling: CaseHandling, segmentation: &SegmentationPreset) -> (r: Result<(Vec<MorphInterpretation>, i32)>)
        ensures
            self.without_analyzer() ==> (r matches Ok((v, next)) && v@.len() == 0 && next == start_node),
    {
        match self {
            AnyLexicon::Dictionary(d) => d.analyze_native_word(word, start_node, case_handling, segmentation),
            AnyLexicon::Binary(b) => b.analyze_native_word(word, start_node, case_handling, segmentation),
            AnyLexicon::Analyzer(a) => Lexicon::analyze_native_word(a, word, start_node, case_handling, segmentation),
            AnyLexicon::Generator(g) => g.analyze_native_word(word, start_node, case_handling, segmentation),
        }
    }

    fn analyze_word_interpretations(&self, orth: &str, start_node: i32, case_handling: CaseHandling, segmentation: &SegmentationPreset) -> (r: Result<Option<(Vec<MorphInterpretation>, i32)>>)
        ensures
            self.without_analyzer() ==> r matches Ok(None),
    {
        match self {
            AnyLexicon::Dictionary(d) => d.analyze_word_interpretations(orth, start_node, case_handling, segmentation),
            AnyLexicon::Binary(b) => b.analyze_word_interpretations(orth, start_node, case_handling, segmentation),
            AnyLexicon::Analyzer(a) => a.analyze_word_interpretations(orth, start_node, case_handling, segmentation),
            AnyLexicon::Generator(g) => g.analyze_word_interpretations(orth, start_node, case_handling, segmentation),
        }
    }

    fn lookup_interpretations(&self, orth: &str, start_node: i32, end_node: i32, result_orth: &str, case_handling: CaseHandling, segmentation: &SegmentationPreset) -> (r: Result<Option<Vec<MorphInterpretation>>>)
        ensures
            self.without_analyzer() ==> match self.spec_lookup(orth@) {
                Some(es) => (r matches Ok(Some(v)) && readings_of(v@, es, start_node as int, end_node as int, result_orth@)),
                None => r matches Ok(None),
            },
    {
        match self {
            AnyLexicon::Dictionary(d) => d.lookup_interpretations(orth, start_node, end_node, result_orth, case_handling, segmentation),
            AnyLexicon::Binary(b) => b.lookup_interpretations(orth, start_node, end_node, result_orth, case_handling, segmentation),
            AnyLexicon::Analyzer(a) => a.lookup_interpretations(orth, start_node, end_node, result_orth, case_handling, segmentation),
            AnyLexicon::Generator(g) => g.lookup_interpretations(orth, start_node, end_node, result_orth, case_handling, segmentation),
        }
    }

    fn synthesize_interpretations(&self, lemma: &str, segmentation: &SegmentationPreset) -> (r: Result<Vec<MorphInterpretation>>)
        ensures
            self matches AnyLexicon::Dictionary(d) ==> (r matches Ok(v) && d.synthesized(lemma@, v@)),
            self is Analyzer ==> (r matches Ok(v) && v@.len() == 0),
            (self matches AnyLexicon::Binary(b) && !b.has_generator()) ==> (r matches Ok(v) && v@.len() == 0),
            self matches AnyLexicon::Generator(g) ==> (g.no_rule_transitions(*segmentation)
                ==> (r matches Ok(v) ==> crate::binary::generator::generator_forms(*g, lemma@, v@))),
            generator_of(*self) matches Some(g) ==> (g.no_rule_transitions(*segmentation)
                ==> (r matches Ok(v) ==> crate::binary::generator::generator_forms(g, lemma@, v@))),
            !(self is Dictionary) && generator_of(*self) is None ==> (r matches Ok(v) && v@.len() == 0),
    {
        match self {
            AnyLexicon::Dictionary(d) => d.synthesize_interpretations(lemma, segmentation),
            AnyLexicon::Binary(b) => b.synthesize_interpretations(lemma, segmentation),
            AnyLexicon::Analyzer(a) => a.synthesize_interpretations(lemma, segmentation),
            AnyLexicon::Generator(g) => g.synthesize_interpretations(lemma, segmentation),
        }
    }
}

/// Another handle on the same lexicon (`Arc::clone`): std documents that
/// the clone points to the same allocation, so it holds the same value.
#[verifier::external_body]
fn share_lexicon(lexicon: &Arc<AnyLexicon>) -> (r: Arc<AnyLexicon>)
    ensures
        *r == **lexicon,
{
    Arc::clone(lexicon)
}

/// The binary generator a lexicon generates with, where it has one.
pub open spec fn generator_of(lex: AnyLexicon) -> Option<BinaryGeneratorLexicon> {
    match lex {
        AnyLexicon::Generator(g) => Some(g),
        AnyLexicon::Binary(b) => b.generator_view(),
        _ => None,
    }
}

/// The reading is the unknown-word reading of a lemma that generates no
/// form: the lemma as form and lemma, no nodes, all ids 0.
pub open spec fn ign_of_lemma(m: MorphInterpretation, lemma: Seq<char>) -> bool {
    &&& m.start_node == 0
    &&& m.end_node == 0
    &&& m.orth@ == lemma
    &&& m.lemma@ == lemma
    &&& m.tag_id == 0
    &&& m.name_id == 0
    &&& m.labels_id == 0
}

/// The result of generation: the lexicon's forms when there are any, else
/// the one unknown-word reading of the lemma.
pub open spec fn generated_or_ign(v: Seq<MorphInterpretation>, lemma: Seq<char>, forms: spec_fn(Seq<MorphInterpretation>) -> bool) -> bool {
    ||| (v.len() > 0 && forms(v))
    ||| (v.len() == 1 && ign_of_lemma(v[0], lemma) && forms(Seq::empty()))
}

/// What generating the lemma from a binary generator gives: its forms, or
/// one unknown-word reading of the lemma when it has none.
pub open spec fn generated_by_generator(g: BinaryGeneratorLexicon, lemma: Seq<char>, v: Seq<MorphInterpretation>) -> bool {
    generated_or_ign(v, lemma, |w: Seq<MorphInterpretation>| crate::binary::generator::generator_forms(g, lemma, w))
}

/// What generating the lemma from the dictionary gives: its forms, or one
/// unknown-word reading of the lemma when it has none.
pub open spec fn generated_by(d: Dictionary, lemma: Seq<char>, v: Seq<MorphInterpretation>) -> bool {
    generated_or_ign(v, lemma, |w: Seq<MorphInterpretation>| d.synthesized(lemma, w))
}

/// The whitespace of the analyzer: the characters that separate words.
pub open spec fn morfeusz_ws(c: char) -> bool {
    let v = c as u32;
    ||| v == 0
    ||| 0x09 <= v <= 0x0D
    ||| 0x1C <= v <= 0x20
    ||| v == 0x85
    ||| v == 0xA0
    ||| v == 0x1680
    ||| v == 0x180E
    ||| 0x2000 <= v <= 0x200B
    ||| v == 0x2028
    ||| v == 0x2029
    ||| v == 0x202F
    ||| v == 0x205F
    ||| v == 0x2060
    ||| v == 0x3000
}

/// Whether the character separates words.
pub fn is_morfeusz_whitespace(ch: char) -> (r: bool)
    ensures
        r == morfeusz_ws(ch),
{
    let v = ch as u32;
    v == 0 || (0x09 <= v && v <= 0x0D) || (0x1C <= v && v <= 0x20) || v == 0x85 || v == 0xA0
        || v == 0x1680 || v == 0x180E || (0x2000 <= v && v <= 0x200B) || v == 0x2028 || v == 0x2029
        || v == 0x202F || v == 0x205F || v == 0x2060 || v == 0x3000
}

/// Whether the byte is an ASCII character that separates words.
pub fn is_morfeusz_ascii_whitespace(byte: u8) -> (r: bool)
    ensures
        r == (byte == 0 || (0x09 <= byte <= 0x0D) || (0x1C <= byte <= 0x20)),
{
    byte == 0 || (0x09 <= byte && byte <= 0x0D) || (0x1C <= byte && byte <= 0x20)
}

/// The length of the UTF-8 sequence that a leading byte starts.
pub fn utf8_char_width(byte: u8) -> (r: usize)
    ensures
        r == (if byte <= 0x7F { 1usize } else if 0xC0 <= byte <= 0xDF { 2 } else if 0xE0 <= byte <= 0xEF { 3 } else { 4 }),
{
    if byte <= 0x7F {
        1
    } else if 0xC0 <= byte && byte <= 0xDF {
        2
    } else if 0xE0 <= byte && byte <= 0xEF {
        3
    } else {
        4
    }
}

/// Whether any character of the text separates words.
pub open spec fn has_morfeusz_ws(s: Seq<char>) -> bool {
    exists|i: int| 0 <= i < s.len() && morfeusz_ws(#[trigger] s[i])
}

/// Whether the text holds a character that separates words.
pub fn contains_morfeusz_whitespace(text: &str) -> (r: bool)
    ensures
        r == has_morfeusz_ws(text@),
{
    let chars = chars_of(text);
    let mut i: usize = 0;
    while i < chars.len()
        invariant
            chars@ == text@,
            i <= chars@.len(),
            forall|k: int| 0 <= k < i ==> !morfeusz_ws(#[trigger] text@[k]),
        decreases chars@.len() - i,
    {
        if is_morfeusz_whitespace(chars[i]) {
            assert(morfeusz_ws(text@[i as int]));
            return true;
        }
        i = i + 1;
    }
    false
}

/// A piece of text: a run of whitespace or (part of) a word.
#[derive(Debug, Clone, PartialEq, Eq)]
pub struct Segment {
    pub text: String,
    pub is_whitespace: bool,
}

/// The texts of the segments, one after another.
pub open spec fn concat(segs: Seq<Segment>) -> Seq<char>
    decreases segs.len(),
{
    if segs.len() == 0 {
        Seq::empty()
    } else {
        concat(segs.drop_last()) + segs.last().text@
    }
}

/// Each segment is non-empty and made only of whitespace, or of no
/// whitespace, as its flag says.
pub open spec fn segments_wf(segs: Seq<Segment>) -> bool {
    forall|i: int| 0 <= i < segs.len() ==> (#[trigger] segs[i]).text@.len() > 0
        && forall|k: int| 0 <= k < segs[i].text@.len() ==> (morfeusz_ws(#[trigger] segs[i].text@[k]) == segs[i].is_whitespace)
}

proof fn lemma_concat_push(segs: Seq<Segment>, s: Segment)
    ensures
        concat(segs.push(s)) == concat(segs) + s.text@,
{
    assert(segs.push(s).drop_last() =~= segs);
}

/// Every character separates words.
pub open spec fn all_morfeusz_ws(s: Seq<char>) -> bool {
    forall|i: int| 0 <= i < s.len() ==> morfeusz_ws(#[trigger] s[i])
}

/// Every segment is whitespace.
pub open spec fn all_ws_segments(segs: Seq<Segment>) -> bool {
    forall|i: int| 0 <= i < segs.len() ==> (#[trigger] segs[i]).is_whitespace
}

/// A whitespace segment is never followed by another.
pub open spec fn no_adjacent_whitespace(segs: Seq<Segment>) -> bool {
    forall|i: int| 0 <= i < segs.len() - 1 ==> (#[trigger] segs[i]).is_whitespace ==> !segs[i + 1].is_whitespace
}

/// The reading of a whitespace run kept as an edge `start..start + 1`.
pub open spec fn whitespace_edge(m: MorphInterpretation, start: int, orth: Seq<char>) -> bool {
    &&& m.start_node == start
    &&& m.end_node == start + 1
    &&& m.orth@ == orth
    &&& m.lemma@ == orth
    &&& m.tag_id == 1
    &&& m.name_id == 0
    &&& m.labels_id == 0
}

/// The analysis of a text made only of whitespace: one whitespace edge
/// when whitespace is kept, else no reading; the next node follows.
pub open spec fn whitespace_text_result(r: Result<(Vec<MorphInterpretation>, i32)>, text: Seq<char>, start: int, keep: bool) -> bool {
    if keep {
        r matches Ok((v, n)) && v@.len() == 1 && whitespace_edge(v@[0], start, text) && n == start + 1
    } else {
        r matches Ok((v, n)) && v@.len() == 0 && n == start
    }
}

/// A non-empty text made only of whitespace, split so that no two
/// whitespace segments meet, is a single whitespace segment.
proof fn lemma_ws_text_one_segment(segs: Seq<Segment>)
    requires
        segments_wf(segs),
        no_adjacent_whitespace(segs),
        all_morfeusz_ws(concat(segs)),
        concat(segs).len() > 0,
    ensures
        segs.len() == 1,
        segs[0].is_whitespace,
        segs[0].text@ == concat(segs),
{
    lemma_ws_text_ws_segments(segs);
    if segs.len() == 0 {
        assert(concat(segs) =~= Seq::<char>::empty());
    }
    if segs.len() > 1 {
        assert(segs[0].is_whitespace);
        assert(!segs[1].is_whitespace);
    }
    assert(segs.drop_last() =~= Seq::<Segment>::empty());
    assert(concat(segs.drop_last()) =~= Seq::<char>::empty());
    assert(concat(segs) =~= segs.last().text@);
}

/// Segments of a text made only of whitespace are all whitespace.
proof fn lemma_ws_text_ws_segments(segs: Seq<Segment>)
    requires
        segments_wf(segs),
        all_morfeusz_ws(concat(segs)),
    ensures
        all_ws_segments(segs),
    decreases segs.len(),
{
    if segs.len() > 0 {
        let rest = segs.drop_last();
        let last = segs.last();
        assert(concat(segs) == concat(rest) + last.text@);
        assert forall|i: int| 0 <= i < concat(rest).len() implies morfeusz_ws(#[trigger] concat(rest)[i]) by {
            assert(concat(segs)[i] == concat(rest)[i]);
        }
        assert forall|i: int| 0 <= i < rest.len() implies (#[trigger] rest[i]).text@.len() > 0
            && forall|k: int| 0 <= k < rest[i].text@.len() ==> (morfeusz_ws(#[trigger] rest[i].text@[k]) == rest[i].is_whitespace) by {
            assert(rest[i] == segs[i]);
        }
        lemma_ws_text_ws_segments(rest);
        assert(segs[segs.len() - 1] == last);
        assert(concat(segs)[concat(rest).len() as int] == last.text@[0]);
        assert forall|i: int| 0 <= i < segs.len() implies (#[trigger] segs[i]).is_whitespace by {
            if i < rest.len() {
                assert(segs[i] == rest[i]);
            }
        }
    }
}

/// Joining segments `a..c` is joining `a..b` and then `b..c`.
proof fn lemma_concat_split(segs: Seq<Segment>, a: int, b: int, c: int)
    requires
        0 <= a <= b <= c <= segs.len(),
    ensures
        concat(segs.subrange(a, c)) == concat(segs.subrange(a, b)) + concat(segs.subrange(b, c)),
    decreases c - b,
{
    if c == b {
        assert(segs.subrange(b, c) =~= Seq::<Segment>::empty());
        assert(concat(segs.subrange(a, b)) + Seq::<char>::empty() =~= concat(segs.subrange(a, b)));
    } else {
        lemma_concat_split(segs, a, b, c - 1);
        assert(segs.subrange(a, c) =~= segs.subrange(a, c - 1).push(segs[c - 1]));
        assert(segs.subrange(b, c) =~= segs.subrange(b, c - 1).push(segs[c - 1]));
        lemma_concat_push(segs.subrange(a, c - 1), segs[c - 1]);
        lemma_concat_push(segs.subrange(b, c - 1), segs[c - 1]);
        assert(concat(segs.subrange(a, c)) =~= concat(segs.subrange(a, b)) + concat(segs.subrange(b, c)));
    }
}

/// The most nodes the readings of segments `a..b` may take: one per
/// character and one per segment.
pub open spec fn run_cost(segs: Seq<Segment>, a: int, b: int) -> int {
    concat(segs.subrange(a, b)).len() + (b - a)
}

proof fn lemma_run_cost_split(segs: Seq<Segment>, a: int, b: int, c: int)
    requires
        0 <= a <= b <= c <= segs.len(),
    ensures
        run_cost(segs, a, c) == run_cost(segs, a, b) + run_cost(segs, b, c),
        run_cost(segs, a, b) >= b - a,
        run_cost(segs, b, c) >= c - b,
{
    lemma_concat_split(segs, a, b, c);
}

/// Non-empty segments are no more than their characters.
proof fn lemma_segments_fewer_than_chars(segs: Seq<Segment>)
    requires
        forall|i: int| 0 <= i < segs.len() ==> (#[trigger] segs[i]).text@.len() > 0,
    ensures
        segs.len() <= concat(segs).len(),
    decreases segs.len(),
{
    if segs.len() > 0 {
        let rest = segs.drop_last();
        assert forall|i: int| 0 <= i < rest.len() implies (#[trigger] rest[i]).text@.len() > 0 by {
            assert(rest[i] == segs[i]);
        }
        lemma_segments_fewer_than_chars(rest);
        assert(segs.last() == segs[segs.len() - 1]);
    }
}

/// Segment `i` alone costs its length and one.
proof fn lemma_run_cost_one(segs: Seq<Segment>, i: int)
    requires
        0 <= i < segs.len(),
    ensures
        run_cost(segs, i, i + 1) == segs[i].text@.len() + 1,
{
    assert(segs.subrange(i, i + 1) =~= Seq::<Segment>::empty().push(segs[i]));
    lemma_concat_push(Seq::<Segment>::empty(), segs[i]);
    assert(concat(Seq::<Segment>::empty()) =~= Seq::<char>::empty());
    assert(concat(segs.subrange(i, i + 1)) =~= segs[i].text@);
}

/// Splits text into its maximal runs of whitespace and of other characters.
pub fn whitespace_runs(text: &str) -> (runs: Vec<Segment>)
    ensures
        concat(runs@) == text@,
        segments_wf(runs@),
        forall|i: int| 0 <= i < runs@.len() - 1 ==> (#[trigger] runs@[i]).is_whitespace != runs@[i + 1].is_whitespace,
{
    let chars = chars_of(text);
    let mut runs: Vec<Segment> = Vec::new();
    let mut start: usize = 0;
    proof {
        assert(text@.take(0) =~= Seq::<char>::empty());
    }
    while start < chars.len()
        invariant
            chars@ == text@,
            start <= chars@.len(),
            concat(runs@) == text@.take(start as int),
            segments_wf(runs@),
            forall|i: int| 0 <= i < runs@.len() - 1 ==> (#[trigger] runs@[i]).is_whitespace != runs@[i + 1].is_whitespace,
            runs@.len() > 0 && start < chars@.len() ==> runs@.last().is_whitespace != morfeusz_ws(text@[start as int]),
        decreases chars@.len() - start,
    {
        let is_ws = is_morfeusz_whitespace(chars[start]);
        let mut end = start + 1;
        while end < chars.len() && is_morfeusz_whitespace(chars[end]) == is_ws
            invariant
                chars@ == text@,
                start < end <= chars@.len(),
                is_ws == morfeusz_ws(text@[start as int]),
                forall|k: int| start <= k < end ==> morfeusz_ws(#[trigger] text@[k]) == is_ws,
            decreases chars@.len() - end,
        {
            end = end + 1;
        }
        let piece = string_from_char_range(chars.as_slice(), start, end);
        let ghost before = runs@;
        let seg = Segment { text: piece, is_whitespace: is_ws };
        runs.push(seg);
        proof {
            lemma_concat_push(before, seg);
            assert(text@.take(end as int) =~= text@.take(start as int) + text@.subrange(start as int, end as int));
            assert forall|i: int| 0 <= i < runs@.len() implies (#[trigger] runs@[i]).text@.len() > 0
                && forall|k: int| 0 <= k < runs@[i].text@.len() ==> (morfeusz_ws(#[trigger] runs@[i].text@[k]) == runs@[i].is_whitespace) by {
                if i < before.len() {
                    assert(runs@[i] == before[i]);
                } else {
                    assert forall|k: int| 0 <= k < runs@[i].text@.len() implies (morfeusz_ws(#[trigger] runs@[i].text@[k]) == runs@[i].is_whitespace) by {
                        assert(runs@[i].text@[k] == text@[start + k]);
                    }
                }
            }
            assert forall|i: int| 0 <= i < runs@.len() - 1 implies (#[trigger] runs@[i]).is_whitespace != runs@[i + 1].is_whitespace by {
                if i < before.len() - 1 {
                    assert(runs@[i] == before[i] && runs@[i + 1] == before[i + 1]);
                } else {
                    assert(runs@[i] == before.last());
                }
            }
        }
        start = end;
    }
    assert(text@.take(chars@.len() as int) =~= text@);
    runs
}

/// Whether the character belongs to a word: alphanumeric or `_`.
pub fn is_word_char(ch: char) -> (r: bool)
    ensures
        r == (alnum_of(ch) || ch == '_'),
{
    is_alphanumeric(ch) || ch == '_'
}

/// Splits text into runs of whitespace, runs of word characters, and single
/// other characters.
/// A character of a word: alphanumeric or `_`.
pub open spec fn word_char(c: char) -> bool {
    alnum_of(c) || c == '_'
}

/// Non-whitespace segment `i` is a longest run of word characters, or a
/// single character of no word.
pub open spec fn token_shape(segs: Seq<Segment>, i: int) -> bool {
    ||| (forall|k: int| 0 <= k < segs[i].text@.len() ==> word_char(#[trigger] segs[i].text@[k]))
        && (i + 1 < segs.len() && !segs[i + 1].is_whitespace ==> !word_char(segs[i + 1].text@[0]))
    ||| segs[i].text@.len() == 1 && !word_char(segs[i].text@[0])
}

/// The segments are the text split into longest whitespace runs, longest
/// word runs and single other characters.
pub open spec fn tokenized(segs: Seq<Segment>, text: Seq<char>) -> bool {
    &&& concat(segs) == text
    &&& segments_wf(segs)
    &&& no_adjacent_whitespace(segs)
    &&& forall|i: int| 0 <= i < segs.len() && !(#[trigger] segs[i]).is_whitespace ==> token_shape(segs, i)
}

pub fn tokenize(text: &str) -> (segments: Vec<Segment>)
    ensures
        concat(segments@) == text@,
        segments_wf(segments@),
        no_adjacent_whitespace(segments@),
        tokenized(segments@, text@),
{
    let chars = chars_of(text);
    let mut segments: Vec<Segment> = Vec::new();
    let mut start: usize = 0;
    proof {
        assert(text@.take(0) =~= Seq::<char>::empty());
    }
    while start < chars.len()
        invariant
            chars@ == text@,
            start <= chars@.len(),
            concat(segments@) == text@.take(start as int),
            segments_wf(segments@),
            no_adjacent_whitespace(segments@),
            segments@.len() > 0 && segments@.last().is_whitespace && start < chars@.len() ==> !morfeusz_ws(text@[start as int]),
            forall|i: int| 0 <= i < segments@.len() - 1 && !(#[trigger] segments@[i]).is_whitespace ==> token_shape(segments@, i),
            segments@.len() > 0 && !segments@.last().is_whitespace ==> (segments@.last().text@.len() == 1
                && !word_char(segments@.last().text@[0])) || ((forall|k: int| 0 <= k < segments@.last().text@.len()
                ==> word_char(#[trigger] segments@.last().text@[k])) && (start < chars@.len() && !morfeusz_ws(text@[start as int])
                ==> !word_char(text@[start as int]))),
        decreases chars@.len() - start,
    {
        let first = chars[start];
        let is_ws = is_morfeusz_whitespace(first);
        let mut end = start + 1;
        if is_ws {
            while end < chars.len() && is_morfeusz_whitespace(chars[end])
                invariant
                    chars@ == text@,
                    start < end <= chars@.len(),
                    forall|k: int| start <= k < end ==> morfeusz_ws(#[trigger] text@[k]),
                decreases chars@.len() - end,
            {
                end = end + 1;
            }
        } else if is_word_char(first) {
            while end < chars.len() && is_word_char(chars[end]) && !is_morfeusz_whitespace(chars[end])
                invariant
                    chars@ == text@,
                    start < end <= chars@.len(),
                    forall|k: int| start <= k < end ==> !morfeusz_ws(#[trigger] text@[k]),
                    forall|k: int| start <= k < end ==> word_char(#[trigger] text@[k]),
                decreases chars@.len() - end,
            {
                end = end + 1;
            }
        }
        let piece = string_from_char_range(chars.as_slice(), start, end);
        let ghost before = segments@;
        let seg = Segment { text: piece, is_whitespace: is_ws };
        segments.push(seg);
        proof {
            lemma_concat_push(before, seg);
            assert(text@.take(end as int) =~= text@.take(start as int) + text@.subrange(start as int, end as int));
            assert forall|i: int| 0 <= i < segments@.len() - 1 implies (#[trigger] segments@[i]).is_whitespace ==> !segments@[i + 1].is_whitespace by {
                if i < before.len() - 1 {
                    assert(segments@[i] == before[i] && segments@[i + 1] == before[i + 1]);
                } else {
                    assert(segments@[i] == before.last());
                }
            }
            assert forall|i: int| 0 <= i < segments@.len() implies (#[trigger] segments@[i]).text@.len() > 0
                && forall|k: int| 0 <= k < segments@[i].text@.len() ==> (morfeusz_ws(#[trigger] segments@[i].text@[k]) == segments@[i].is_whitespace) by {
                if i < before.len() {
                    assert(segments@[i] == before[i]);
                } else {
                    assert forall|k: int| 0 <= k < segments@[i].text@.len() implies (morfeusz_ws(#[trigger] segments@[i].text@[k]) == segments@[i].is_whitespace) by {
                        assert(segments@[i].text@[k] == text@[start + k]);
                    }
                }
            }
            assert(seg.text@ == text@.subrange(start as int, end as int));
            assert(seg.text@[0] == text@[start as int]);
            if !is_ws {
                if word_char(first) {
                    assert forall|k: int| 0 <= k < seg.text@.len() implies word_char(#[trigger] seg.text@[k]) by {
                        assert(seg.text@[k] == text@[start + k]);
                    }
                } else {
                    assert(end == start + 1);
                }
            }
            assert forall|i: int| 0 <= i < segments@.len() - 1 && !(#[trigger] segments@[i]).is_whitespace
                implies token_shape(segments@, i) by {
                if i < before.len() - 1 {
                    assert(segments@[i] == before[i] && segments@[i + 1] == before[i + 1]);
                    assert(token_shape(before, i));
                } else {
                    assert(segments@[i] == before.last());
                    assert(segments@[i + 1] == seg);
                }
            }
        }
        start = end;
    }
    assert(text@.take(chars@.len() as int) =~= text@);
    proof {
        if segments@.len() > 0 && !segments@.last().is_whitespace {
            assert(token_shape(segments@, segments@.len() - 1));
        }
    }
    segments
}

/// The end of the run of non-whitespace segments that starts at `start`.
pub fn non_whitespace_run_end(segments: &[Segment], start: usize) -> (r: usize)
    requires
        start <= segments@.len(),
    ensures
        start <= r <= segments@.len(),
        forall|i: int| start <= i < r ==> !(#[trigger] segments@[i]).is_whitespace,
        r < segments@.len() ==> segments@[r as int].is_whitespace,
{
    let mut i = start;
    while i < segments.len() && !segments[i].is_whitespace
        invariant
            start <= i <= segments@.len(),
            forall|k: int| start <= k < i ==> !(#[trigger] segments@[k]).is_whitespace,
        decreases segments@.len() - i,
    {
        i = i + 1;
    }
    i
}

/// Whether every character of the segment belongs to a word.
pub fn is_word_segment(segment: &Segment) -> (r: bool)
    ensures
        r == forall|k: int| 0 <= k < segment.text@.len() ==> (alnum_of(#[trigger] segment.text@[k]) || segment.text@[k] == '_'),
{
    let chars = chars_of(segment.text.as_str());
    let mut i: usize = 0;
    while i < chars.len()
        invariant
            chars@ == segment.text@,
            i <= chars@.len(),
            forall|k: int| 0 <= k < i ==> (alnum_of(#[trigger] segment.text@[k]) || segment.text@[k] == '_'),
        decreases chars@.len() - i,
    {
        if !is_word_char(chars[i]) {
            return false;
        }
        i = i + 1;
    }
    true
}

/// Every character of the segment belongs to a word.
pub open spec fn word_segment(s: Segment) -> bool {
    forall|k: int| 0 <= k < s.text@.len() ==> (alnum_of(#[trigger] s.text@[k]) || s.text@[k] == '_')
}

/// Where the pairs `-word` that follow from `i` end, before `end`.
pub open spec fn hyphen_pairs_end(segments: Seq<Segment>, i: int, end: int) -> int
    decreases end - i,
{
    if 0 <= i && i + 1 < end && segments[i].text@ == "-"@ && word_segment(segments[i + 1]) {
        hyphen_pairs_end(segments, i + 2, end)
    } else {
        i
    }
}

/// The end of a run `word-word(-word)*` that starts at `start`, when there
/// is at least one hyphen.
pub fn hyphenated_word_span_end(segments: &[Segment], start: usize, end: usize) -> (r: Option<usize>)
    requires
        start < end <= segments@.len(),
    ensures
        r matches Some(e) ==> start + 3 <= e <= end,
        r is Some <==> word_segment(segments@[start as int]) && hyphen_pairs_end(segments@, start + 1, end as int) > start + 1,
        r matches Some(e) ==> e == hyphen_pairs_end(segments@, start + 1, end as int),
{
    if !is_word_segment(&segments[start]) {
        return None;
    }
    let mut index = start + 1;
    let mut saw_hyphen = false;
    let slen = segments.len();
    while index < end && end - index > 1 && str_eq(segments[index].text.as_str(), "-") && is_word_segment(&segments[index + 1])
        invariant
            start < index <= end,
            end <= segments@.len(),
            segments@.len() == slen,
            saw_hyphen ==> start + 3 <= index,
            saw_hyphen <==> index > start + 1,
            word_segment(segments@[start as int]),
            hyphen_pairs_end(segments@, index as int, end as int) == hyphen_pairs_end(segments@, start + 1, end as int),
        decreases end - index,
    {
        saw_hyphen = true;
        index = index + 2;
    }
    if saw_hyphen {
        Some(index)
    } else {
        None
    }
}

/// The texts of segments `start..end`, one after another.
pub fn join_segments(segments: &[Segment], start: usize, end: usize) -> (r: String)
    requires
        start <= end <= segments@.len(),
    ensures
        r@ == concat(segments@.subrange(start as int, end as int)),
{
    let mut out = String::new();
    let mut i = start;
    proof {
        assert(segments@.subrange(start as int, start as int) =~= Seq::<Segment>::empty());
    }
    while i < end
        invariant
            start <= i <= end <= segments@.len(),
            out@ == concat(segments@.subrange(start as int, i as int)),
        decreases end - i,
    {
        push_str(&mut out, segments[i].text.as_str());
        proof {
            let before = segments@.subrange(start as int, i as int);
            assert(segments@.subrange(start as int, i + 1) =~= before.push(segments@[i as int]));
            lemma_concat_push(before, segments@[i as int]);
        }
        i = i + 1;
    }
    out
}

/// Roman numerals: at most `max` copies of `byte` from `i`.
pub open spec fn roman_repeat(b: Seq<u8>, i: int, byte: u8, max: int) -> int
    decreases max,
{
    if max <= 0 || i < 0 || i >= b.len() || b[i] != byte {
        i
    } else {
        roman_repeat(b, i + 1, byte, max - 1)
    }
}

/// One decimal rank of a roman numeral from `i`: `one ten`, `one five`, or
/// an optional `five` and up to three `one`s; where it ends.
pub open spec fn roman_rank(b: Seq<u8>, i: int, one: u8, five: u8, ten: u8) -> int {
    if 0 <= i && i + 1 < b.len() && b[i] == one && b[i + 1] == ten {
        i + 2
    } else if 0 <= i && i + 1 < b.len() && b[i] == one && b[i + 1] == five {
        i + 2
    } else {
        let j = if 0 <= i < b.len() && b[i] == five { i + 1 } else { i };
        roman_repeat(b, j, one, 3)
    }
}

pub open spec fn roman_letter(c: u8) -> bool {
    c == 73 || c == 86 || c == 88 || c == 76 || c == 67 || c == 68 || c == 77
}

/// A roman numeral between I and MMMCMXCIX in the usual form.
pub open spec fn roman_ok(b: Seq<u8>) -> bool {
    &&& b.len() > 0
    &&& forall|i: int| 0 <= i < b.len() ==> roman_letter(#[trigger] b[i])
    &&& roman_rank(b, roman_rank(b, roman_rank(b, roman_repeat(b, 0, 77, 3), 67, 68, 77), 88, 76, 67), 73, 86, 88) == b.len()
}

/// Moves past at most `max` copies of `byte`.
pub fn consume_repeated(bytes: &[u8], index: usize, byte: u8, max: usize) -> (r: usize)
    requires
        index <= bytes@.len(),
    ensures
        r == roman_repeat(bytes@, index as int, byte, max as int),
        index <= r <= bytes@.len(),
    decreases max,
{
    if max == 0 || index >= bytes.len() || bytes[index] != byte {
        index
    } else {
        consume_repeated(bytes, index + 1, byte, max - 1)
    }
}

/// Moves past one decimal rank of a roman numeral.
pub fn consume_roman_rank(bytes: &[u8], index: usize, one: u8, five: u8, ten: u8) -> (r: usize)
    requires
        index <= bytes@.len(),
    ensures
        r == roman_rank(bytes@, index as int, one, five, ten),
        index <= r <= bytes@.len(),
{
    let n = bytes.len();
    if index < n && n - index > 1 && bytes[index] == one && bytes[index + 1] == ten {
        return index + 2;
    }
    if index < n && n - index > 1 && bytes[index] == one && bytes[index + 1] == five {
        return index + 2;
    }
    let mut i = index;
    if i < n && bytes[i] == five {
        i = i + 1;
    }
    consume_repeated(bytes, i, one, 3)
}

/// Whether the text is a roman numeral in the usual form.
pub fn is_valid_roman_numeral(value: &str) -> (r: bool)
    ensures
        r == roman_ok(vstd::utf8::encode_utf8(value@)),
{
    let bytes = value.as_bytes();
    assert(bytes@ == vstd::utf8::encode_utf8(value@));
    if bytes.len() == 0 {
        return false;
    }
    let mut i: usize = 0;
    while i < bytes.len()
        invariant
            bytes@ == vstd::utf8::encode_utf8(value@),
            i <= bytes@.len(),
            forall|k: int| 0 <= k < i ==> roman_letter(#[trigger] bytes@[k]),
        decreases bytes@.len() - i,
    {
        let c = bytes[i];
        if !(c == 73 || c == 86 || c == 88 || c == 76 || c == 67 || c == 68 || c == 77) {
            assert(!roman_letter(bytes@[i as int]));
            return false;
        }
        i = i + 1;
    }
    let mut index = consume_repeated(bytes, 0, 77, 3);
    index = consume_roman_rank(bytes, index, 67, 68, 77);
    index = consume_roman_rank(bytes, index, 88, 76, 67);
    index = consume_roman_rank(bytes, index, 73, 86, 88);
    index == bytes.len()
}

/// `count` copies of the letter `c`.
pub open spec fn roman_copies(c: u8, count: int) -> Seq<u8> {
    Seq::new(count as nat, |k: int| c)
}

/// How a decimal digit `d` is written with the letters for one, five and
/// ten of its rank: nothing, up to three ones, one before five, five and up
/// to three ones, or one before ten.
pub open spec fn roman_digit(d: int, one: u8, five: u8, ten: u8) -> Seq<u8> {
    if d == 4 {
        seq![one, five]
    } else if d == 9 {
        seq![one, ten]
    } else if d >= 5 {
        seq![five] + roman_copies(one, d - 5)
    } else {
        roman_copies(one, d)
    }
}

/// The usual roman numeral for `n` (1 to 3999), in ASCII: `M` for each
/// thousand, then the hundreds, tens and units.
pub open spec fn roman_numeral(n: int) -> Seq<u8> {
    roman_copies(77, n / 1000) + roman_digit((n / 100) % 10, 67, 68, 77)
        + roman_digit((n / 10) % 10, 88, 76, 67) + roman_digit(n % 10, 73, 86, 88)
}

proof fn lemma_roman_repeat_run(b: Seq<u8>, i: int, byte: u8, max: int, k: int)
    requires
        0 <= i,
        0 <= k <= max,
        i + k <= b.len(),
        forall|t: int| i <= t < i + k ==> b[t] == byte,
        i + k == b.len() || b[i + k] != byte,
    ensures
        roman_repeat(b, i, byte, max) == i + k,
    decreases k,
{
    if k > 0 {
        lemma_roman_repeat_run(b, i + 1, byte, max - 1, k - 1);
    }
}

/// One rank written the usual way, between a prefix and letters of lower
/// ranks, is read to its end.
proof fn lemma_roman_rank_digit(p: Seq<u8>, d: int, one: u8, five: u8, ten: u8, rest: Seq<u8>)
    requires
        0 <= d <= 9,
        one != five && one != ten && five != ten,
        rest.len() == 0 || (rest[0] != one && rest[0] != five && rest[0] != ten),
    ensures
        roman_rank(p + roman_digit(d, one, five, ten) + rest, p.len() as int, one, five, ten)
            == p.len() + roman_digit(d, one, five, ten).len(),
{
    let g = roman_digit(d, one, five, ten);
    let b = p + g + rest;
    let i = p.len() as int;
    assert forall|t: int| 0 <= t < g.len() implies b[i + t] == g[t] by {}
    assert(rest.len() > 0 ==> b[i + g.len()] == rest[0]);
    if d == 4 || d == 9 {
    } else if d >= 5 {
        assert(b[i] == five);
        lemma_roman_repeat_run(b, i + 1, one, 3, d - 5);
    } else {
        if d == 0 {
            assert(rest.len() > 0 ==> b[i] == rest[0]);
        } else {
            assert(b[i] == one);
            if d == 1 {
                assert(i + 1 < b.len() ==> b[i + 1] == rest[0]);
            } else {
                assert(b[i + 1] == one);
            }
        }
        lemma_roman_repeat_run(b, i, one, 3, d);
    }
}

/// Every number from 1 to 3999, written the usual way (subtractive pairs
/// such as `IV`, `IX`, `XL`, `XC`, `CD` and `CM` included), is a roman
/// numeral the analyzer accepts.
pub proof fn law_usual_roman_numerals_accepted(n: int)
    requires
        1 <= n <= 3999,
    ensures
        roman_ok(roman_numeral(n)),
{
    let th = n / 1000;
    let h = (n / 100) % 10;
    let t = (n / 10) % 10;
    let o = n % 10;
    let a = roman_copies(77, th);
    let hs = roman_digit(h, 67, 68, 77);
    let ts = roman_digit(t, 88, 76, 67);
    let os = roman_digit(o, 73, 86, 88);
    let b = roman_numeral(n);
    assert(b == a + hs + ts + os);
    assert(0 <= th <= 3);
    // thousands
    let r1 = hs + ts + os;
    assert(b =~= a + r1);
    assert forall|k: int| 0 <= k < th implies b[k] == 77u8 by {
        assert(b[k] == a[k]);
    }
    assert(r1.len() > 0 ==> b[th] == r1[0]);
    assert(r1.len() > 0 ==> r1[0] != 77u8) by {
        if hs.len() > 0 {
            assert(r1[0] == hs[0]);
        } else if ts.len() > 0 {
            assert(r1[0] == ts[0]);
        } else if os.len() > 0 {
            assert(r1[0] == os[0]);
        }
    }
    lemma_roman_repeat_run(b, 0, 77, 3, th);
    // hundreds
    let r2 = ts + os;
    assert(b =~= a + hs + r2);
    assert(r2.len() > 0 ==> (r2[0] != 67u8 && r2[0] != 68u8 && r2[0] != 77u8)) by {
        if ts.len() > 0 {
            assert(r2[0] == ts[0]);
        } else if os.len() > 0 {
            assert(r2[0] == os[0]);
        }
    }
    lemma_roman_rank_digit(a, h, 67, 68, 77, r2);
    // tens
    let a2 = a + hs;
    assert(b =~= a2 + ts + os);
    assert(os.len() > 0 ==> (os[0] != 88u8 && os[0] != 76u8 && os[0] != 67u8));
    lemma_roman_rank_digit(a2, t, 88, 76, 67, os);
    // units
    let a3 = a2 + ts;
    assert(b =~= a3 + os + Seq::<u8>::empty());
    lemma_roman_rank_digit(a3, o, 73, 86, 88, Seq::<u8>::empty());
    assert(b.len() > 0) by {
        if th == 0 && h == 0 && t == 0 {
            assert(o > 0);
        }
    }
    assert forall|k: int| 0 <= k < b.len() implies roman_letter(#[trigger] b[k]) by {
        if k < a.len() {
            assert(b[k] == a[k]);
        } else if k < a.len() + hs.len() {
            assert(b[k] == hs[k - a.len()]);
        } else if k < a.len() + hs.len() + ts.len() {
            assert(b[k] == ts[k - a.len() - hs.len()]);
        } else {
            assert(b[k] == os[k - a.len() - hs.len() - ts.len()]);
        }
    }
}

proof fn lemma_roman_repeat_reads(b: Seq<u8>, i: int, byte: u8, max: int)
    requires
        0 <= i <= b.len(),
        0 <= max,
    ensures
        i <= roman_repeat(b, i, byte, max) <= i + max,
        roman_repeat(b, i, byte, max) <= b.len(),
        b.subrange(i, roman_repeat(b, i, byte, max)) == roman_copies(byte, roman_repeat(b, i, byte, max) - i),
    decreases max,
{
    if max <= 0 || i >= b.len() || b[i] != byte {
        assert(b.subrange(i, i) =~= roman_copies(byte, 0));
    } else {
        lemma_roman_repeat_reads(b, i + 1, byte, max - 1);
        let e = roman_repeat(b, i + 1, byte, max - 1);
        assert(b.subrange(i, e) =~= seq![byte] + b.subrange(i + 1, e));
        assert(seq![byte] + roman_copies(byte, e - i - 1) =~= roman_copies(byte, e - i));
    }
}

/// What one rank reads from `i` is the usual form of some digit.
proof fn lemma_roman_rank_reads(b: Seq<u8>, i: int, one: u8, five: u8, ten: u8) -> (d: int)
    requires
        0 <= i <= b.len(),
    ensures
        0 <= d <= 9,
        i <= roman_rank(b, i, one, five, ten) <= b.len(),
        b.subrange(i, roman_rank(b, i, one, five, ten)) == roman_digit(d, one, five, ten),
{
    if i + 1 < b.len() && b[i] == one && b[i + 1] == ten {
        assert(b.subrange(i, i + 2) =~= seq![one, ten]);
        9
    } else if i + 1 < b.len() && b[i] == one && b[i + 1] == five {
        assert(b.subrange(i, i + 2) =~= seq![one, five]);
        4
    } else if i < b.len() && b[i] == five {
        lemma_roman_repeat_reads(b, i + 1, one, 3);
        let e = roman_repeat(b, i + 1, one, 3);
        assert(b.subrange(i, e) =~= seq![five] + b.subrange(i + 1, e));
        5 + (e - i - 1)
    } else {
        lemma_roman_repeat_reads(b, i, one, 3);
        roman_repeat(b, i, one, 3) - i
    }
}

/// Every roman numeral the analyzer accepts is the usual form of a number
/// from 1 to 3999.
pub proof fn law_accepted_roman_numerals_are_usual(b: Seq<u8>)
    requires
        roman_ok(b),
    ensures
        exists|n: int| 1 <= n <= 3999 && #[trigger] roman_numeral(n) == b,
{
    let i1 = roman_repeat(b, 0, 77, 3);
    lemma_roman_repeat_reads(b, 0, 77, 3);
    let h = lemma_roman_rank_reads(b, i1, 67, 68, 77);
    let i2 = roman_rank(b, i1, 67, 68, 77);
    let t = lemma_roman_rank_reads(b, i2, 88, 76, 67);
    let i3 = roman_rank(b, i2, 88, 76, 67);
    let o = lemma_roman_rank_reads(b, i3, 73, 86, 88);
    let i4 = roman_rank(b, i3, 73, 86, 88);
    assert(i4 == b.len());
    let th = i1;
    let n = 1000 * th + 100 * h + 10 * t + o;
    assert(n / 1000 == th);
    assert((n / 100) % 10 == h);
    assert((n / 10) % 10 == t);
    assert(n % 10 == o);
    assert(b =~= b.subrange(0, i1) + b.subrange(i1, i2) + b.subrange(i2, i3) + b.subrange(i3, i4));
    assert(roman_numeral(n) == b);
    if n == 0 {
        assert(roman_digit(0, 67, 68, 77).len() == 0);
        assert(roman_digit(0, 88, 76, 67).len() == 0);
        assert(roman_digit(0, 73, 86, 88).len() == 0);
        assert(b.len() == 0);
    }
}

/// The uppercase ASCII form of a text; other characters unchanged.
pub fn ascii_uppercase(text: &str) -> (r: String)
    ensures
        r@.len() == text@.len(),
        r@ == uppercased(text@),
{
    let chars = chars_of(text);
    let mut out = String::new();
    let mut i: usize = 0;
    while i < chars.len()
        invariant
            chars@ == text@,
            i <= chars@.len(),
            out@.len() == i,
            out@ == uppercased(text@.take(i as int)),
        decreases chars@.len() - i,
    {
        crate::text::push_char(&mut out, to_ascii_upper(chars[i]));
        assert(text@.take(i + 1) =~= text@.take(i as int).push(text@[i as int]));
        assert(uppercased(text@.take(i + 1)) =~= uppercased(text@.take(i as int)).push(ascii_upper(text@[i as int])));
        i = i + 1;
    }
    assert(text@.take(chars@.len() as int) =~= text@);
    out
}

/// The text with ASCII letters in uppercase.
pub open spec fn uppercased(t: Seq<char>) -> Seq<char> {
    t.map_values(|c: char| ascii_upper(c))
}

/// `InvalidArgument` when the lemma holds whitespace.
pub fn ensure_valid_generate_input(lemma: &str) -> (r: Result<()>)
    ensures
        r is Err <==> has_morfeusz_ws(lemma@),
        r matches Err(e) ==> e is InvalidArgument,
{
    if contains_morfeusz_whitespace(lemma) {
        Err(Error::invalid_argument("Lemma parameter contains whitespace."))
    } else {
        Ok(())
    }
}

/// The index of `value` in the sorted boundaries.
pub fn graph_boundary_index(boundaries: &[usize], value: usize) -> (r: Option<usize>)
    ensures
        r matches Some(i) ==> i < boundaries@.len() && boundaries@[i as int] == value,
        r is None ==> forall|i: int| 0 <= i < boundaries@.len() ==> boundaries@[i] != value,
{
    let mut i: usize = 0;
    while i < boundaries.len()
        invariant
            i <= boundaries@.len(),
            forall|k: int| 0 <= k < i ==> boundaries@[k] != value,
        decreases boundaries@.len() - i,
    {
        if boundaries[i] == value {
            return Some(i);
        }
        i = i + 1;
    }
    None
}

/// Inserts `value` into the sorted list unless it is there.
fn insert_sorted_unique(v: &mut Vec<usize>, value: usize)
    requires
        forall|a: int, b: int| 0 <= a < b < old(v)@.len() ==> old(v)@[a] < old(v)@[b],
    ensures
        forall|a: int, b: int| 0 <= a < b < final(v)@.len() ==> final(v)@[a] < final(v)@[b],
        final(v)@.contains(value),
        forall|x: usize| old(v)@.contains(x) ==> final(v)@.contains(x),
        forall|x: usize| #[trigger] final(v)@.contains(x) ==> x == value || old(v)@.contains(x),
{
    let mut i: usize = 0;
    while i < v.len() && v[i] < value
        invariant
            i <= v@.len(),
            v@ == old(v)@,
            forall|a: int, b: int| 0 <= a < b < v@.len() ==> v@[a] < v@[b],
            forall|k: int| 0 <= k < i ==> v@[k] < value,
        decreases v@.len() - i,
    {
        i = i + 1;
    }
    if i < v.len() && v[i] == value {
        assert(v@[i as int] == value);
        return;
    }
    v.insert(i, value);
    proof {
        assert(v@[i as int] == value);
        assert forall|x: usize| old(v)@.contains(x) implies v@.contains(x) by {
            let k = choose|k: int| 0 <= k < old(v)@.len() && old(v)@[k] == x;
            if k < i {
                assert(v@[k] == x);
            } else {
                assert(v@[k + 1] == x);
            }
        }
        assert forall|x: usize| #[trigger] v@.contains(x) implies x == value || old(v)@.contains(x) by {
            let k = choose|k: int| 0 <= k < v@.len() && v@[k] == x;
            if k < i {
                assert(old(v)@[k] == x);
            } else if k > i {
                assert(old(v)@[k - 1] == x);
            }
        }
    }
}

/// Reading `i` starts at the earliest node of all.
pub open spec fn starts_first(v: Seq<MorphInterpretation>, i: int) -> bool {
    forall|k: int| 0 <= k < v.len() ==> v[i].start_node <= #[trigger] v[k].start_node
}

/// Reading `i` ends at the last node of all.
pub open spec fn ends_last(v: Seq<MorphInterpretation>, i: int) -> bool {
    forall|k: int| 0 <= k < v.len() ==> #[trigger] v[k].end_node <= v[i].end_node
}

/// The leading whitespace glued onto reading `i`: all of it where the
/// reading starts first, else nothing.
pub open spec fn lead_part(v: Seq<MorphInterpretation>, i: int, leading: Option<Seq<char>>) -> Seq<char> {
    if leading is Some && starts_first(v, i) { leading.unwrap() } else { Seq::empty() }
}

/// The trailing whitespace glued onto reading `i`: all of it where the
/// reading ends last, else nothing.
pub open spec fn trail_part(v: Seq<MorphInterpretation>, i: int, trailing: Option<Seq<char>>) -> Seq<char> {
    if trailing is Some && ends_last(v, i) { trailing.unwrap() } else { Seq::empty() }
}

/// The two readings agree in all but their forms.
pub open spec fn same_but_orth(a: MorphInterpretation, b: MorphInterpretation) -> bool {
    &&& a.start_node == b.start_node
    &&& a.end_node == b.end_node
    &&& a.lemma@ == b.lemma@
    &&& a.tag_id == b.tag_id
    &&& a.name_id == b.name_id
    &&& a.labels_id == b.labels_id
}

/// Glues whitespace onto a word's readings: leading onto those that start
/// at the word's first node, trailing onto those that end at its last.
pub fn append_whitespace_to_word(interps: &mut Vec<MorphInterpretation>, leading: Option<&str>, trailing: Option<&str>)
    ensures
        final(interps)@.len() == old(interps)@.len(),
        forall|i: int| 0 <= i < final(interps)@.len() ==> (#[trigger] final(interps)@[i]).start_node == old(interps)@[i].start_node
            && final(interps)@[i].end_node == old(interps)@[i].end_node,
        forall|i: int| 0 <= i < final(interps)@.len() ==> same_but_orth(#[trigger] final(interps)@[i], old(interps)@[i])
            && final(interps)@[i].orth@ == lead_part(old(interps)@, i, str_option(leading)) + old(interps)@[i].orth@
                + trail_part(old(interps)@, i, str_option(trailing)),
{
    let ghost orig = interps@;
    if interps.len() == 0 {
        return;
    }
    match leading {
        Some(lead) => {
            let mut min_start = interps[0].start_node;
            let mut i: usize = 1;
            while i < interps.len()
                invariant
                    1 <= i <= interps@.len(),
                    interps@ == orig,
                    exists|k: int| 0 <= k < i && orig[k].start_node == min_start,
                    forall|k: int| 0 <= k < i ==> min_start <= #[trigger] orig[k].start_node,
                decreases interps@.len() - i,
            {
                if interps[i].start_node < min_start {
                    min_start = interps[i].start_node;
                }
                i = i + 1;
            }
            proof {
                assert forall|k: int| 0 <= k < orig.len() implies starts_first(orig, k) == (orig[k].start_node == min_start) by {
                    let w = choose|w: int| 0 <= w < orig.len() && orig[w].start_node == min_start;
                    if starts_first(orig, k) {
                        assert(orig[k].start_node <= orig[w].start_node);
                    }
                }
            }
            let mut i: usize = 0;
            while i < interps.len()
                invariant
                    i <= interps@.len(),
                    interps@.len() == orig.len(),
                    forall|k: int| 0 <= k < orig.len() ==> starts_first(orig, k) == (#[trigger] orig[k].start_node == min_start),
                    forall|k: int| 0 <= k < interps@.len() ==> same_but_orth(#[trigger] interps@[k], orig[k]),
                    forall|k: int| 0 <= k < i ==> !starts_first(orig, k) ==> (#[trigger] interps@[k]).orth@ == orig[k].orth@,
                    forall|k: int| 0 <= k < i ==> starts_first(orig, k) ==> (#[trigger] interps@[k]).orth@ == lead@ + orig[k].orth@,
                    forall|k: int| i <= k < interps@.len() ==> (#[trigger] interps@[k]).orth@ == orig[k].orth@,
                decreases interps@.len() - i,
            {
                if interps[i].start_node == min_start {
                    let ghost before = interps@;
                    let old_item = interps.remove(i);
                    let mut orth = owned(lead);
                    push_str(&mut orth, old_item.orth.as_str());
                    interps.insert(i, MorphInterpretation { orth, ..old_item });
                    proof {
                        assert(interps@ =~= before.update(i as int, interps@[i as int]));
                    }
                }
                i = i + 1;
            }
        },
        None => {},
    }
    let ghost mid = interps@;
    proof {
        assert forall|k: int| 0 <= k < mid.len() implies same_but_orth(#[trigger] mid[k], orig[k])
            && mid[k].orth@ == lead_part(orig, k, str_option(leading)) + orig[k].orth@ by {
            if leading is None {
                assert(lead_part(orig, k, str_option(leading)) =~= Seq::<char>::empty());
                assert(mid[k].orth@ =~= Seq::<char>::empty() + orig[k].orth@);
            } else if !starts_first(orig, k) {
                assert(mid[k].orth@ =~= Seq::<char>::empty() + orig[k].orth@);
            }
        }
        assert forall|k: int| 0 <= k < mid.len() implies ends_last(mid, k) == ends_last(orig, k) by {
            if ends_last(mid, k) {
                assert forall|j: int| 0 <= j < orig.len() implies #[trigger] orig[j].end_node <= orig[k].end_node by {
                    assert(same_but_orth(mid[j], orig[j]));
                }
            }
            if ends_last(orig, k) {
                assert forall|j: int| 0 <= j < mid.len() implies #[trigger] mid[j].end_node <= mid[k].end_node by {
                    assert(same_but_orth(mid[j], orig[j]));
                }
            }
        }
    }
    match trailing {
        Some(trail) => {
            let mut max_end = interps[0].end_node;
            let mut i: usize = 1;
            while i < interps.len()
                invariant
                    1 <= i <= interps@.len(),
                    interps@ == mid,
                    exists|k: int| 0 <= k < i && mid[k].end_node == max_end,
                    forall|k: int| 0 <= k < i ==> #[trigger] mid[k].end_node <= max_end,
                decreases interps@.len() - i,
            {
                if interps[i].end_node > max_end {
                    max_end = interps[i].end_node;
                }
                i = i + 1;
            }
            proof {
                assert forall|k: int| 0 <= k < mid.len() implies ends_last(mid, k) == (mid[k].end_node == max_end) by {
                    let w = choose|w: int| 0 <= w < mid.len() && mid[w].end_node == max_end;
                    if ends_last(mid, k) {
                        assert(mid[w].end_node <= mid[k].end_node);
                    }
                }
            }
            let mut i: usize = 0;
            while i < interps.len()
                invariant
                    i <= interps@.len(),
                    interps@.len() == mid.len(),
                    forall|k: int| 0 <= k < mid.len() ==> ends_last(mid, k) == (#[trigger] mid[k].end_node == max_end),
                    forall|k: int| 0 <= k < interps@.len() ==> same_but_orth(#[trigger] interps@[k], mid[k]),
                    forall|k: int| 0 <= k < i ==> ends_last(mid, k) ==> (#[trigger] interps@[k]).orth@ == mid[k].orth@ + trail@,
                    forall|k: int| 0 <= k < i ==> !ends_last(mid, k) ==> (#[trigger] interps@[k]).orth@ == mid[k].orth@,
                    forall|k: int| i <= k < interps@.len() ==> (#[trigger] interps@[k]).orth@ == mid[k].orth@,
                decreases interps@.len() - i,
            {
                if interps[i].end_node == max_end {
                    let ghost before = interps@;
                    let old_item = interps.remove(i);
                    let mut orth = owned(old_item.orth.as_str());
                    push_str(&mut orth, trail);
                    interps.insert(i, MorphInterpretation { orth, ..old_item });
                    proof {
                        assert(interps@ =~= before.update(i as int, interps@[i as int]));
                    }
                }
                i = i + 1;
            }
            proof {
                assert forall|k: int| 0 <= k < interps@.len() implies same_but_orth(#[trigger] interps@[k], orig[k])
                    && interps@[k].orth@ == lead_part(orig, k, str_option(leading)) + orig[k].orth@
                        + trail_part(orig, k, str_option(trailing)) by {
                    assert(same_but_orth(mid[k], orig[k]));
                    if !ends_last(mid, k) {
                        assert(interps@[k].orth@ =~= mid[k].orth@ + Seq::<char>::empty());
                    }
                }
            }
        },
        None => {
            proof {
                assert forall|k: int| 0 <= k < interps@.len() implies same_but_orth(#[trigger] interps@[k], orig[k])
                    && interps@[k].orth@ == lead_part(orig, k, str_option(leading)) + orig[k].orth@
                        + trail_part(orig, k, str_option(trailing)) by {
                    assert(interps@[k].orth@ =~= mid[k].orth@ + Seq::<char>::empty());
                }
            }
        },
    }
}

/// The analysis engine: a lexicon and a configuration.
#[derive(Debug, Clone)]
pub struct Engine {
    lexicon: Arc<AnyLexicon>,
    config: Config,
}

impl Engine {
    pub closed spec fn wf(&self) -> bool {
        (*self.lexicon).lexicon_wf()
    }

    pub closed spec fn spec_config(&self) -> Config {
        self.config
    }

    pub closed spec fn spec_lexicon(&self) -> AnyLexicon {
        *self.lexicon
    }

    pub fn builder() -> (b: EngineBuilder)
        ensures
            b.wf(),
    {
        EngineBuilder::default_builder()
    }

    pub fn config(&self) -> (c: &Config)
        ensures
            *c == self.spec_config(),
    {
        &self.config
    }

    pub fn resolver(&self) -> (r: &IdResolver)
        requires
            self.wf(),
        ensures
            r.wf(),
            *r == self.spec_lexicon().spec_resolver(),
    {
        self.lexicon.resolver()
    }

    pub fn lexicon_id(&self) -> (r: &str)
        ensures
            r@ == self.spec_lexicon().spec_id(),
    {
        self.lexicon.id()
    }

    pub fn lexicon_copyright(&self) -> (r: &str)
        ensures
            r@ == self.spec_lexicon().spec_copyright(),
    {
        self.lexicon.copyright()
    }

    /// The dictionary's own `aggl` option, if it defines one.
    pub fn default_aggl(&self) -> (r: Option<&str>)
        requires
            self.wf(),
        ensures
            str_option(r) == self.spec_lexicon().default_option_of("aggl"@),
    {
        self.lexicon.default_aggl()
    }

    /// The dictionary's own `praet` option, if it defines one.
    pub fn default_praet(&self) -> (r: Option<&str>)
        requires
            self.wf(),
        ensures
            str_option(r) == self.spec_lexicon().default_option_of("praet"@),
    {
        self.lexicon.default_praet()
    }

    /// The values the `aggl` option can take with this lexicon.
    pub fn available_aggl_options(&self) -> (r: Vec<String>)
        requires
            self.wf(),
        ensures
            self.spec_lexicon().aggl_listed(str_views(r@)),
    {
        self.lexicon.available_aggl_options()
    }

    /// The values the `praet` option can take with this lexicon.
    pub fn available_praet_options(&self) -> (r: Vec<String>)
        requires
            self.wf(),
        ensures
            self.spec_lexicon().praet_listed(str_views(r@)),
    {
        self.lexicon.available_praet_options()
    }

    pub fn validate_segmentation(&self, segmentation: &SegmentationPreset, option: &str, value: &str) -> (r: Result<()>)
        requires
            self.wf(),
        ensures
            r matches Err(e) ==> e is InvalidArgument,
            r is Ok <==> self.spec_lexicon().accepts_view(*segmentation, option@),
    {
        self.lexicon.validate_segmentation(segmentation, option, value)
    }

    /// The engine with another configuration, sharing the lexicon.
    pub fn with_config(&self, config: Config) -> (e: Self)
        ensures
            e.spec_config() == config,
            e.spec_lexicon() == self.spec_lexicon(),
            self.wf() ==> e.wf(),
    {
        Engine { lexicon: share_lexicon(&self.lexicon), config }
    }

    /// An engine sharing the lexicon, with the same configuration.
    pub fn fork(&self) -> (e: Self)
        ensures
            same_config(e.spec_config(), self.spec_config()),
            e.spec_lexicon() == self.spec_lexicon(),
            self.wf() ==> e.wf(),
    {
        Engine { lexicon: share_lexicon(&self.lexicon), config: self.config.copy() }
    }

    /// The readings of a text, nodes numbered from 0.
    pub fn analyze(&self, text: &str) -> (r: Result<Vec<MorphInterpretation>>)
        requires
            self.wf(),
        ensures
            r matches Ok(v) ==> nodes_within(v@, 0, i32::MAX as int),
            all_morfeusz_ws(text@) && text@.len() > 0 ==> (r matches Ok(v) && if self.spec_config().spec_whitespace()
                == WhitespaceHandling::Keep {
                v@.len() == 1 && whitespace_edge(v@[0], 0, text@)
            } else {
                v@.len() == 0
            }),
            knows_nothing(self.spec_lexicon()) && text@.len() <= i32::MAX ==> (r matches Ok(v)
                && exists|segs: Seq<Segment>, n: int| tokenized(segs, text@)
                    && #[trigger] plain_analysis(self.spec_lexicon().spec_resolver(), self.spec_config().spec_whitespace(), segs, 0, v@, n)),
    {
        let (result, _) = self.analyze_from_node(text, 0)?;
        Ok(result)
    }

    /// A session that numbers nodes as the configuration says.
    pub fn session(&self) -> (s: Session)
        ensures
            s.spec_next_node() == 0,
            same_config(s.spec_engine_config(), self.spec_config()),
            s.spec_session_lexicon() == self.spec_lexicon(),
            self.wf() ==> s.wf(),
    {
        Session { engine: self.fork(), next_node: 0, cache: WordTemplateCache::new() }
    }

    /// The forms of a lemma; an unknown lemma gives one unknown-word
    /// reading of itself. `InvalidArgument` when the lemma holds whitespace.
    pub fn generate(&self, lemma: &str) -> (r: Result<Vec<MorphInterpretation>>)
        requires
            self.wf(),
        ensures
            has_morfeusz_ws(lemma@) ==> (r matches Err(e) && e is InvalidArgument),
            r matches Ok(v) ==> v@.len() > 0,
            !has_morfeusz_ws(lemma@) ==> (self.spec_lexicon() matches AnyLexicon::Dictionary(d)
                ==> (r matches Ok(v) && generated_by(d, lemma@, v@))),
            !has_morfeusz_ws(lemma@) ==> (generator_of(self.spec_lexicon()) matches Some(g)
                ==> (g.no_rule_transitions(self.spec_config().spec_segmentation())
                ==> (r matches Ok(v) ==> generated_by_generator(g, lemma@, v@)))),
            !has_morfeusz_ws(lemma@) && !(self.spec_lexicon() is Dictionary) && generator_of(self.spec_lexicon()) is None
                ==> (r matches Ok(v) && v@.len() == 1 && ign_of_lemma(v@[0], lemma@)),
    {
        ensure_valid_generate_input(lemma)?;
        let lexical = self.lexicon.synthesize_interpretations(lemma, self.config.segmentation())?;
        if lexical.len() > 0 {
            return Ok(lexical);
        }
        proof {
            assert(lexical@ =~= Seq::<MorphInterpretation>::empty());
        }
        let mut v: Vec<MorphInterpretation> = Vec::new();
        v.push(MorphInterpretation::create_ign(0, 0, lemma, lemma));
        Ok(v)
    }

    /// The forms of a lemma with the given tag. `InvalidArgument` when the
    /// tagset has no such tag, or the lemma holds whitespace.
    pub fn generate_by_tag_id(&self, lemma: &str, tag_id: i32) -> (r: Result<Vec<MorphInterpretation>>)
        requires
            self.wf(),
        ensures
            !self.spec_lexicon().spec_resolver().has_tag(tag_id as int) ==> (r matches Err(e)
                && e matches Error::InvalidArgument(m) && m@ == "Invalid tag id: "@ + signed_decimal(tag_id as int)),
            r matches Ok(v) ==> forall|i: int| 0 <= i < v@.len() ==> (#[trigger] v@[i]).tag_id == tag_id,
            self.spec_lexicon().spec_resolver().has_tag(tag_id as int) && !has_morfeusz_ws(lemma@)
                ==> (self.spec_lexicon() matches AnyLexicon::Dictionary(d) ==> (r matches Ok(v)
                    && exists|all: Seq<MorphInterpretation>| #[trigger] generated_by(d, lemma@, all)
                        && v@ == all.filter(|m: MorphInterpretation| m.tag_id == tag_id))),
            self.spec_lexicon().spec_resolver().has_tag(tag_id as int) && !has_morfeusz_ws(lemma@)
                ==> (generator_of(self.spec_lexicon()) matches Some(g) ==> (g.no_rule_transitions(
                    self.spec_config().spec_segmentation()) ==> (r matches Ok(v)
                    ==> exists|all: Seq<MorphInterpretation>| #[trigger] generated_by_generator(g, lemma@, all)
                        && v@ == all.filter(|m: MorphInterpretation| m.tag_id == tag_id)))),
    {
        if self.resolver().tag(tag_id).is_none() {
            let number = crate::text::i32_string(tag_id);
            return Err(Error::invalid_argument_about("Invalid tag id: ", number.as_str()));
        }
        let all = self.generate(lemma)?;
        let total = all.len();
        let ghost whole = all@;
        let ghost keep = |m: MorphInterpretation| m.tag_id == tag_id;
        let mut out: Vec<MorphInterpretation> = Vec::new();
        let mut rest = all;
        let mut i: usize = 0;
        proof {
            assert(whole.take(0) =~= Seq::<MorphInterpretation>::empty());
            reveal(Seq::filter);
            assert(whole.skip(0) =~= whole);
        }
        while rest.len() > 0
            invariant
                i <= whole.len(),
                whole.len() == total,
                rest@ == whole.skip(i as int),
                out@ == whole.take(i as int).filter(keep),
                keep == |m: MorphInterpretation| m.tag_id == tag_id,
                forall|k: int| 0 <= k < out@.len() ==> (#[trigger] out@[k]).tag_id == tag_id,
            decreases rest@.len(),
        {
            let ghost before = out@;
            let x = rest.remove(0);
            proof {
                assert(rest@ =~= whole.skip(i + 1));
                assert(x == whole[i as int]);
                assert(whole.take(i + 1).drop_last() =~= whole.take(i as int));
                assert(whole.take(i + 1).last() == x);
                reveal(Seq::filter);
            }
            if x.tag_id == tag_id {
                out.push(x);
            }
            i = i + 1;
        }
        proof {
            assert(whole.take(i as int) =~= whole);
            if let AnyLexicon::Dictionary(d) = self.spec_lexicon() {
                if !has_morfeusz_ws(lemma@) {
                    assert(generated_by(d, lemma@, whole));
                }
            }
            if let AnyLexicon::Generator(gl) = self.spec_lexicon() {
                if !has_morfeusz_ws(lemma@) && gl.no_rule_transitions(self.spec_config().spec_segmentation()) {
                    assert(generated_by_generator(gl, lemma@, whole));
                }
            }
        }
        Ok(out)
    }

    /// The readings of a text with nodes numbered from `start_node`, and the
    /// next free node.
    pub fn analyze_from_node(&self, text: &str, start_node: i32) -> (r: Result<(Vec<MorphInterpretation>, i32)>)
        requires
            self.wf(),
        ensures
            r matches Ok((v, next)) ==> start_node <= next && nodes_within(v@, start_node as int, next as int),
            self.spec_lexicon().without_analyzer() && 0 <= start_node && start_node + 2 * text@.len() <= i32::MAX ==> r is Ok,
            all_morfeusz_ws(text@) && text@.len() > 0 && start_node < i32::MAX ==> whitespace_text_result(r, text@,
                start_node as int, self.spec_config().spec_whitespace() == WhitespaceHandling::Keep),
            knows_nothing(self.spec_lexicon()) && 0 <= start_node && start_node + text@.len() <= i32::MAX
                ==> plain_text_analysis(self.spec_lexicon(), self.spec_config(), text@, start_node as int, r),
    {
        let mut cache = WordTemplateCache::new();
        self.analyze_from_node_cached(text, start_node, &mut cache)
    }

    /// `analyze_from_node` with a word-template cache that keeps the
    /// analyses of repeated words across calls.
    /// Nodes are numbered relative to the start node: from a negative start
    /// the text is analysed from node 0 and its readings moved back.
    pub fn analyze_from_node_cached(&self, text: &str, start_node: i32, cache: &mut WordTemplateCache) -> (r: Result<(Vec<MorphInterpretation>, i32)>)
        requires
            self.wf(),
            old(cache).wf(),
        ensures
            final(cache).wf(),
            r matches Ok((v, next)) ==> start_node <= next && nodes_within(v@, start_node as int, next as int),
            self.spec_lexicon().without_analyzer() && 0 <= start_node && start_node + 2 * text@.len() <= i32::MAX ==> r is Ok,
            all_morfeusz_ws(text@) && text@.len() > 0 && start_node < i32::MAX ==> whitespace_text_result(r, text@,
                start_node as int, self.spec_config().spec_whitespace() == WhitespaceHandling::Keep),
            knows_nothing(self.spec_lexicon()) && 0 <= start_node && start_node + text@.len() <= i32::MAX
                ==> plain_text_analysis(self.spec_lexicon(), self.spec_config(), text@, start_node as int, r),
    {
        if start_node >= 0 {
            return self.analyze_from_start(text, start_node, cache);
        }
        let (v, next) = self.analyze_from_start(text, 0, cache)?;
        if !readings_movable(&v, start_node) {
            return Err(Error::OutOfRange(owned("node number overflow")));
        }
        let moved = move_readings(v, start_node);
        proof {
            assert forall|i: int| 0 <= i < moved@.len() implies start_node <= (#[trigger] moved@[i]).start_node
                && moved@[i].end_node <= next + start_node by {
                assert(moved_reading(moved@[i], v@[i], start_node as int));
            }
            if all_morfeusz_ws(text@) && text@.len() > 0 && self.spec_config().spec_whitespace() == WhitespaceHandling::Keep {
                assert(moved_reading(moved@[0], v@[0], start_node as int));
            }
        }
        Ok((moved, next + start_node))
    }

    /// `analyze_from_node_cached` from a node that is not negative.
    fn analyze_from_start(&self, text: &str, start_node: i32, cache: &mut WordTemplateCache) -> (r: Result<(Vec<MorphInterpretation>, i32)>)
        requires
            self.wf(),
            0 <= start_node,
            old(cache).wf(),
        ensures
            final(cache).wf(),
            r matches Ok((v, next)) ==> start_node <= next && nodes_within(v@, start_node as int, next as int),
            self.spec_lexicon().without_analyzer() && start_node + 2 * text@.len() <= i32::MAX ==> r is Ok,
            all_morfeusz_ws(text@) && text@.len() > 0 && start_node < i32::MAX ==> whitespace_text_result(r, text@,
                start_node as int, self.spec_config().spec_whitespace() == WhitespaceHandling::Keep),
            knows_nothing(self.spec_lexicon()) && start_node + text@.len() <= i32::MAX
                ==> plain_text_analysis(self.spec_lexicon(), self.spec_config(), text@, start_node as int, r),
    {
        if self.lexicon.is_native_analyzer() {
            return self.analyze_native(text, start_node, cache);
        }
        let segments = tokenize(text);
        proof {
            assert(segments@.subrange(0, segments@.len() as int) =~= segments@);
            lemma_segments_fewer_than_chars(segments@);
            if all_morfeusz_ws(text@) && text@.len() > 0 {
                lemma_ws_text_one_segment(segments@);
            }
        }
        match self.config.whitespace() {
            WhitespaceHandling::Skip => self.analyze_skip_whitespace(segments.as_slice(), start_node),
            WhitespaceHandling::Keep => self.analyze_keep_whitespace(segments.as_slice(), start_node),
            WhitespaceHandling::Append => self.analyze_append_whitespace(segments.as_slice(), start_node),
        }
    }

    /// The readings of a text on a whole-word analyzer: each whitespace-free
    /// run goes to the lexicon; whitespace is dropped, kept as its own edge,
    /// or glued onto the neighbouring word as the configuration says.
    fn analyze_native(&self, text: &str, start_node: i32, cache: &mut WordTemplateCache) -> (r: Result<(Vec<MorphInterpretation>, i32)>)
        requires
            self.wf(),
            0 <= start_node,
            old(cache).wf(),
        ensures
            final(cache).wf(),
            r matches Ok((v, next)) ==> start_node <= next && nodes_within(v@, start_node as int, next as int),
            all_morfeusz_ws(text@) && text@.len() > 0 && start_node < i32::MAX ==> whitespace_text_result(r, text@,
                start_node as int, self.spec_config().spec_whitespace() == WhitespaceHandling::Keep),
    {
        let case = self.config.case_handling();
        let seg = self.config.segmentation();
        let whitespace = self.config.whitespace();
        proof {
            if all_morfeusz_ws(text@) && text@.len() > 0 {
                assert(morfeusz_ws(text@[0]));
            }
        }
        if whitespace == WhitespaceHandling::Skip && !contains_morfeusz_whitespace(text) {
            let (v, next) = self.lexicon.analyze_native_word_cached(cache, text, start_node, case, seg)?;
            return Ok((v, next));
        }
        let runs = whitespace_runs(text);
        let ghost lone = runs@.len() == 1 && runs@[0].is_whitespace && start_node < i32::MAX;
        proof {
            if all_morfeusz_ws(text@) && text@.len() > 0 {
                lemma_ws_text_one_segment(runs@);
            }
        }
        let mut result: Vec<MorphInterpretation> = Vec::new();
        let mut node = start_node;
        let mut index: usize = 0;
        let mut seen_word = false;
        while index < runs.len()
            invariant
                self.wf(),
                cache.wf(),
                0 <= start_node <= node,
                index <= runs@.len(),
                nodes_within(result@, start_node as int, node as int),
                lone == (runs@.len() == 1 && runs@[0].is_whitespace && start_node < i32::MAX),
                all_morfeusz_ws(text@) && text@.len() > 0 && start_node < i32::MAX ==> lone && runs@[0].text@ == text@,
                lone ==> ((index == 0 ==> result@.len() == 0 && node == start_node) && (index == 1 ==> whitespace_text_result(
                    Ok((result, node)), runs@[0].text@, start_node as int, whitespace == WhitespaceHandling::Keep))),
            decreases runs@.len() - index,
        {
            let run = &runs[index];
            proof {
                if lone {
                    assert(index == 0 && run.is_whitespace);
                }
            }
            if run.is_whitespace {
                if whitespace == WhitespaceHandling::Keep {
                    let next = node_at(node, 1)?;
                    result.push(MorphInterpretation::create_whitespace(node, next, run.text.as_str()));
                    node = next;
                }
                index = index + 1;
                continue;
            }
            let leading = if whitespace == WhitespaceHandling::Append && !seen_word && index > 0 && runs[index - 1].is_whitespace {
                Some(runs[index - 1].text.as_str())
            } else {
                None
            };
            let trailing = if whitespace == WhitespaceHandling::Append && index + 1 < runs.len() && runs[index + 1].is_whitespace {
                Some(runs[index + 1].text.as_str())
            } else {
                None
            };
            seen_word = true;
            let (mut interps, next) = self.lexicon.analyze_native_word_cached(cache, run.text.as_str(), node, case, seg)?;
            if leading.is_some() || trailing.is_some() {
                append_whitespace_to_word(&mut interps, leading, trailing);
            }
            let ghost before = result@;
            crate::binary::analyzer::append_all(&mut result, interps);
            proof {
                assert forall|i: int| 0 <= i < result@.len() implies start_node <= (#[trigger] result@[i]).start_node
                    && result@[i].end_node <= next by {
                    if i >= before.len() {
                        assert(result@[i] == interps@[i - before.len()]);
                    }
                }
            }
            node = next;
            index = index + 1;
        }
        Ok((result, node))
    }


    /// The readings of a text split into segments, whitespace dropped.
    fn analyze_skip_whitespace(&self, segments: &[Segment], start_node: i32) -> (r: Result<(Vec<MorphInterpretation>, i32)>)
        requires
            self.wf(),
            0 <= start_node,
        ensures
            r matches Ok((v, next)) ==> start_node <= next && nodes_within(v@, start_node as int, next as int),
            self.spec_lexicon().without_analyzer() && start_node + run_cost(segments@, 0, segments@.len() as int) <= i32::MAX
                ==> r is Ok,
            all_ws_segments(segments@) ==> (r matches Ok((v, next)) && v@.len() == 0 && next == start_node),
            knows_nothing(self.spec_lexicon()) && start_node + segments@.len() <= i32::MAX ==> (r matches Ok((v, next))
                && next == start_node + skip_tokens(segments@, 0).len()
                && token_readings(v@, self.spec_lexicon().spec_resolver(), skip_tokens(segments@, 0), start_node as int)),
    {
        let mut result: Vec<MorphInterpretation> = Vec::new();
        let mut node = start_node;
        let mut index: usize = 0;
        let ghost room = self.spec_lexicon().without_analyzer()
            && start_node + run_cost(segments@, 0, segments@.len() as int) <= i32::MAX;
        let ghost nothing = knows_nothing(self.spec_lexicon()) && start_node + segments@.len() <= i32::MAX;
        let ghost res = self.spec_lexicon().spec_resolver();
        let ghost all = skip_tokens(segments@, 0);
        let ghost mut done: Seq<Seq<char>> = Seq::empty();
        proof {
            assert(done + all =~= all);
        }
        while index < segments.len()
            invariant
                self.wf(),
                0 <= start_node <= node,
                index <= segments@.len(),
                nodes_within(result@, start_node as int, node as int),
                room == (self.spec_lexicon().without_analyzer()
                    && start_node + run_cost(segments@, 0, segments@.len() as int) <= i32::MAX),
                room ==> node <= start_node + run_cost(segments@, 0, index as int),
                all_ws_segments(segments@) ==> result@.len() == 0 && node == start_node,
                nothing == (knows_nothing(self.spec_lexicon()) && start_node + segments@.len() <= i32::MAX),
                res == self.spec_lexicon().spec_resolver(),
                all == skip_tokens(segments@, 0),
                nothing ==> done + skip_tokens(segments@, index as int) == all && node == start_node + done.len()
                    && done.len() <= index && token_readings(result@, res, done, start_node as int),
            decreases segments@.len() - index,
        {
            if segments[index].is_whitespace {
                proof {
                    lemma_run_cost_split(segments@, 0, index as int, index + 1);
                }
                index = index + 1;
                continue;
            }
            let run_end = non_whitespace_run_end(segments, index);
            proof {
                lemma_run_cost_split(segments@, 0, index as int, run_end as int);
                lemma_run_cost_split(segments@, 0, run_end as int, segments@.len() as int);
                lemma_nonws_end(segments@, index as int, run_end as int);
                lemma_run_tokens_len(segments@, index as int, run_end as int);
            }
            let ghost before = result@;
            let pushed = self.push_segment_run_interpretations(&mut result, segments, index, run_end, node, Ghost(start_node as int));
            proof {
                if pushed is Err {
                    assert(!room);
                }
                if nothing {
                    let rt = run_tokens(segments@, index as int, run_end as int);
                    assert(node + (run_end - index) <= i32::MAX);
                    assert(pushed is Ok);
                    assert(result@.take(before.len() as int) == before);
                    assert(result@ =~= result@.take(before.len() as int) + result@.skip(before.len() as int));
                    lemma_token_readings_append(before, result@.skip(before.len() as int), res, done, rt, start_node as int);
                    assert(done + rt + skip_tokens(segments@, run_end as int) =~= all);
                    done = done + rt;
                }
            }
            node = pushed?;
            index = run_end;
        }
        proof {
            if nothing {
                assert(done + Seq::<Seq<char>>::empty() =~= done);
            }
        }
        Ok((result, node))
    }

    /// The readings of a text split into segments, each whitespace run an
    /// edge of its own.
    fn analyze_keep_whitespace(&self, segments: &[Segment], start_node: i32) -> (r: Result<(Vec<MorphInterpretation>, i32)>)
        requires
            self.wf(),
            0 <= start_node,
        ensures
            r matches Ok((v, next)) ==> start_node <= next && nodes_within(v@, start_node as int, next as int),
            self.spec_lexicon().without_analyzer() && start_node + run_cost(segments@, 0, segments@.len() as int) <= i32::MAX
                ==> r is Ok,
            segments@.len() == 1 && segments@[0].is_whitespace && start_node < i32::MAX
                ==> whitespace_text_result(r, segments@[0].text@, start_node as int, true),
            knows_nothing(self.spec_lexicon()) && start_node + segments@.len() <= i32::MAX ==> (r matches Ok((v, next))
                && next == start_node + keep_items(segments@, 0).len()
                && item_readings(v@, self.spec_lexicon().spec_resolver(), keep_items(segments@, 0), start_node as int)),
    {
        let mut result: Vec<MorphInterpretation> = Vec::new();
        let mut node = start_node;
        let mut index: usize = 0;
        let ghost room = self.spec_lexicon().without_analyzer()
            && start_node + run_cost(segments@, 0, segments@.len() as int) <= i32::MAX;
        let ghost nothing = knows_nothing(self.spec_lexicon()) && start_node + segments@.len() <= i32::MAX;
        let ghost res = self.spec_lexicon().spec_resolver();
        let ghost all = keep_items(segments@, 0);
        let ghost mut done: Seq<(bool, Seq<char>)> = Seq::empty();
        proof {
            assert(done + all =~= all);
        }
        while index < segments.len()
            invariant
                self.wf(),
                0 <= start_node <= node,
                index <= segments@.len(),
                nodes_within(result@, start_node as int, node as int),
                room == (self.spec_lexicon().without_analyzer()
                    && start_node + run_cost(segments@, 0, segments@.len() as int) <= i32::MAX),
                room ==> node <= start_node + run_cost(segments@, 0, index as int),
                segments@.len() == 1 && segments@[0].is_whitespace && start_node < i32::MAX ==> ((index == 0 ==> result@.len() == 0
                    && node == start_node) && (index == 1 ==> result@.len() == 1
                    && whitespace_edge(result@[0], start_node as int, segments@[0].text@) && node == start_node + 1)),
                nothing == (knows_nothing(self.spec_lexicon()) && start_node + segments@.len() <= i32::MAX),
                res == self.spec_lexicon().spec_resolver(),
                all == keep_items(segments@, 0),
                nothing ==> done + keep_items(segments@, index as int) == all && node == start_node + done.len()
                    && done.len() <= index && item_readings(result@, res, done, start_node as int),
            decreases segments@.len() - index,
        {
            proof {
                lemma_run_cost_split(segments@, 0, index as int, index + 1);
                lemma_run_cost_split(segments@, 0, index + 1, segments@.len() as int);
            }
            let ghost before = result@;
            if segments[index].is_whitespace {
                let next = node_at(node, 1)?;
                result.push(MorphInterpretation::create_whitespace(node, next, segments[index].text.as_str()));
                proof {
                    if nothing {
                        let it = (true, segments@[index as int].text@);
                        assert(keep_items(segments@, index as int) == seq![it] + keep_items(segments@, index + 1));
                        assert(done.push(it) + keep_items(segments@, index + 1) =~= all);
                        assert(item_reading(result@.last(), res, it, start_node + done.len()));
                        assert forall|k: int| 0 <= k < result@.len() implies item_reading(#[trigger] result@[k], res,
                            done.push(it)[k], start_node + k) by {
                            if k < before.len() {
                                assert(result@[k] == before[k]);
                            }
                        }
                        done = done.push(it);
                    }
                }
                node = next;
                index = index + 1;
            } else {
                let run_end = non_whitespace_run_end(segments, index);
                proof {
                    lemma_run_cost_split(segments@, 0, index as int, run_end as int);
                    lemma_run_cost_split(segments@, 0, run_end as int, segments@.len() as int);
                    lemma_nonws_end(segments@, index as int, run_end as int);
                    lemma_run_tokens_len(segments@, index as int, run_end as int);
                }
                let pushed = self.push_segment_run_interpretations(&mut result, segments, index, run_end, node, Ghost(start_node as int));
                proof {
                    if pushed is Err {
                        assert(!room);
                    }
                    if nothing {
                        let rt = run_tokens(segments@, index as int, run_end as int);
                        let ri = rt.map_values(|x: Seq<char>| (false, x));
                        assert(node + (run_end - index) <= i32::MAX);
                        assert(pushed is Ok);
                        assert(result@.take(before.len() as int) == before);
                        assert(result@ =~= result@.take(before.len() as int) + result@.skip(before.len() as int));
                        lemma_token_item_readings(result@.skip(before.len() as int), res, rt, node as int);
                        lemma_item_readings_append(before, result@.skip(before.len() as int), res, done, ri, start_node as int);
                        assert(done + ri + keep_items(segments@, run_end as int) =~= all);
                        done = done + ri;
                    }
                }
                node = pushed?;
                index = run_end;
            }
        }
        proof {
            if nothing {
                assert(done + Seq::<(bool, Seq<char>)>::empty() =~= done);
            }
        }
        Ok((result, node))
    }

    /// The readings of a text split into segments, whitespace glued onto the
    /// orth of the token it surrounds.
    fn analyze_append_whitespace(&self, segments: &[Segment], start_node: i32) -> (r: Result<(Vec<MorphInterpretation>, i32)>)
        requires
            self.wf(),
            0 <= start_node,
        ensures
            r matches Ok((v, next)) ==> start_node <= next && nodes_within(v@, start_node as int, next as int),
            self.spec_lexicon().without_analyzer() && start_node + run_cost(segments@, 0, segments@.len() as int) <= i32::MAX
                ==> r is Ok,
            all_ws_segments(segments@) ==> (r matches Ok((v, next)) && v@.len() == 0 && next == start_node),
            knows_nothing(self.spec_lexicon()) && start_node + segments@.len() <= i32::MAX ==> (r matches Ok((v, next))
                && next == start_node + append_items(segments@, 0).len()
                && append_readings(v@, self.spec_lexicon().spec_resolver(), append_items(segments@, 0), start_node as int)),
    {
        let mut result: Vec<MorphInterpretation> = Vec::new();
        let mut node = start_node;
        let mut index: usize = 0;
        let ghost room = self.spec_lexicon().without_analyzer()
            && start_node + run_cost(segments@, 0, segments@.len() as int) <= i32::MAX;
        let ghost nothing = knows_nothing(self.spec_lexicon()) && start_node + segments@.len() <= i32::MAX;
        let ghost res = self.spec_lexicon().spec_resolver();
        let ghost all = append_items(segments@, 0);
        let ghost mut done: Seq<(Seq<char>, Seq<char>)> = Seq::empty();
        proof {
            assert(done + all =~= all);
        }
        while index < segments.len()
            invariant
                self.wf(),
                0 <= start_node <= node,
                index <= segments@.len(),
                nodes_within(result@, start_node as int, node as int),
                room == (self.spec_lexicon().without_analyzer()
                    && start_node + run_cost(segments@, 0, segments@.len() as int) <= i32::MAX),
                room ==> node <= start_node + run_cost(segments@, 0, index as int),
                all_ws_segments(segments@) ==> result@.len() == 0 && node == start_node,
                nothing == (knows_nothing(self.spec_lexicon()) && start_node + segments@.len() <= i32::MAX),
                res == self.spec_lexicon().spec_resolver(),
                all == append_items(segments@, 0),
                nothing ==> done + append_items(segments@, index as int) == all && node == start_node + done.len()
                    && done.len() <= index && append_readings(result@, res, done, start_node as int),
            ensures
                index >= segments@.len(),
            decreases segments@.len() - index,
        {
            let ghost idx0 = index;
            let mut leading = String::new();
            proof {
                assert(segments@.subrange(idx0 as int, idx0 as int) =~= Seq::<Segment>::empty());
                assert(concat(Seq::<Segment>::empty()) =~= Seq::<char>::empty());
            }
            while index < segments.len() && segments[index].is_whitespace
                invariant
                    idx0 <= index <= segments@.len(),
                    leading@ == concat(segments@.subrange(idx0 as int, index as int)),
                    forall|k: int| idx0 <= k < index ==> (#[trigger] segments@[k]).is_whitespace,
                decreases segments@.len() - index,
            {
                proof {
                    assert(segments@.subrange(idx0 as int, index + 1) =~= segments@.subrange(idx0 as int, index as int).push(segments@[index as int]));
                    lemma_concat_push(segments@.subrange(idx0 as int, index as int), segments@[index as int]);
                }
                push_str(&mut leading, segments[index].text.as_str());
                index = index + 1;
            }
            proof {
                lemma_ws_end(segments@, idx0 as int);
                lemma_ws_end_at(segments@, idx0 as int, index as int);
            }
            if index >= segments.len() {
                proof {
                    lemma_run_cost_split(segments@, 0, idx0 as int, index as int);
                    if nothing {
                        assert(append_items(segments@, idx0 as int) =~= Seq::<(Seq<char>, Seq<char>)>::empty());
                        assert(done + Seq::<(Seq<char>, Seq<char>)>::empty() =~= done);
                    }
                }
                break;
            }
            proof {
                if all_ws_segments(segments@) {
                    assert(segments@[index as int].is_whitespace);
                }
            }
            let token = &segments[index];
            let ghost tok = index as int;
            index = index + 1;
            let mut trailing = String::new();
            proof {
                assert(segments@.subrange(tok + 1, tok + 1) =~= Seq::<Segment>::empty());
                assert(concat(Seq::<Segment>::empty()) =~= Seq::<char>::empty());
            }
            while index < segments.len() && segments[index].is_whitespace
                invariant
                    idx0 < index <= segments@.len(),
                    idx0 <= tok < index,
                    tok + 1 <= index,
                    trailing@ == concat(segments@.subrange(tok + 1, index as int)),
                    forall|k: int| tok + 1 <= k < index ==> (#[trigger] segments@[k]).is_whitespace,
                decreases segments@.len() - index,
            {
                proof {
                    assert(segments@.subrange(tok + 1, index + 1) =~= segments@.subrange(tok + 1, index as int).push(segments@[index as int]));
                    lemma_concat_push(segments@.subrange(tok + 1, index as int), segments@[index as int]);
                }
                push_str(&mut trailing, segments[index].text.as_str());
                index = index + 1;
            }
            proof {
                lemma_ws_end(segments@, tok + 1);
                lemma_ws_end_at(segments@, tok + 1, index as int);
            }
            let mut orth = owned(leading.as_str());
            push_str(&mut orth, token.text.as_str());
            push_str(&mut orth, trailing.as_str());
            proof {
                lemma_run_cost_split(segments@, 0, idx0 as int, tok);
                lemma_run_cost_split(segments@, 0, tok, tok + 1);
                lemma_run_cost_split(segments@, 0, tok + 1, index as int);
                lemma_run_cost_split(segments@, 0, index as int, segments@.len() as int);
                lemma_run_cost_one(segments@, tok);
                assert(token.text@ == segments@[tok].text@);
            }
            let ghost before = result@;
            let ghost orth_view = orth@;
            let pushed = self.push_segment_interpretations(&mut result, token.text.as_str(), orth, node, Ghost(start_node as int));
            proof {
                if pushed is Err {
                    assert(!room);
                }
                if nothing {
                    let it = (segments@[tok].text@, orth_view);
                    assert(it.1 == concat(segments@.subrange(idx0 as int, tok)) + segments@[tok].text@
                        + concat(segments@.subrange(tok + 1, index as int)));
                    assert(append_items(segments@, idx0 as int) == seq![it] + append_items(segments@, index as int));
                    assert(done.push(it) + append_items(segments@, index as int) =~= all);
                    assert forall|k: int| 0 <= k < result@.len() implies token_reading(#[trigger] result@[k], res,
                        done.push(it)[k].0, done.push(it)[k].1, start_node + k) by {
                        if k < before.len() {
                            assert(result@[k] == before[k]);
                        } else {
                            assert(result@[k] == result@.last());
                        }
                    }
                    done = done.push(it);
                }
            }
            let used = pushed?;
            let moved = node_at(node, used as usize);
            proof {
                if moved is Err {
                    assert(!room);
                }
            }
            node = moved?;
        }
        proof {
            if nothing {
                assert(append_items(segments@, index as int) =~= Seq::<(Seq<char>, Seq<char>)>::empty());
                assert(done + append_items(segments@, index as int) =~= done);
            }
        }
        Ok((result, node))
    }

    /// Adds the readings of one token as edges from `node`: a number, a
    /// roman numeral, the lexicon's analysis of the whole token, its entries,
    /// or an unknown-word reading; how many nodes they take.
    fn push_token_interpretations(&self, result: &mut Vec<MorphInterpretation>, lookup_orth: &str, result_orth: String, node: i32, Ghost(lo): Ghost<int>) -> (r: Result<i32>)
        requires
            self.wf(),
            0 <= lo <= node,
            nodes_within(old(result)@, lo, node as int),
        ensures
            r matches Ok(n) ==> n >= 1 && node + n <= i32::MAX && nodes_within(final(result)@, lo, node + n),
            self.spec_lexicon().without_analyzer() && node < i32::MAX ==> (r matches Ok(n) && n == 1),
            knows_nothing(self.spec_lexicon()) && node < i32::MAX ==> final(result)@.len() == old(result)@.len() + 1
                && final(result)@.drop_last() == old(result)@
                && token_reading(final(result)@.last(), self.spec_lexicon().spec_resolver(), lookup_orth@, result_orth@, node as int),
    {
        let next = node_at(node, 1)?;
        match self.digit_interpretation(lookup_orth, node, next, result_orth.as_str()) {
            Some(m) => {
                result.push(m);
                return Ok(1);
            },
            None => {},
        }
        match self.roman_interpretation(lookup_orth, node, next, result_orth.as_str()) {
            Some(m) => {
                result.push(m);
                return Ok(1);
            },
            None => {},
        }
        if str_eq(result_orth.as_str(), lookup_orth) {
            match self.lexicon.analyze_word_interpretations(lookup_orth, node, self.config.case_handling(), self.config.segmentation())? {
                Some((interps, nodes)) => {
                    if nodes > i32::MAX - node {
                        return Err(Error::OutOfRange(owned("node number overflow")));
                    }
                    let ghost before = result@;
                    crate::binary::analyzer::append_all(result, interps);
                    proof {
                        assert forall|i: int| 0 <= i < result@.len() implies lo <= (#[trigger] result@[i]).start_node
                            && result@[i].end_node <= node + nodes by {
                            if i >= before.len() {
                                assert(result@[i] == interps@[i - before.len()]);
                            }
                        }
                    }
                    return Ok(nodes);
                },
                None => {},
            }
        }
        match self.lexicon.lookup_interpretations(lookup_orth, node, next, result_orth.as_str(), self.config.case_handling(), self.config.segmentation())? {
            Some(interps) => {
                let ghost before = result@;
                crate::binary::analyzer::append_all(result, interps);
                proof {
                    assert forall|i: int| 0 <= i < result@.len() implies lo <= (#[trigger] result@[i]).start_node
                        && result@[i].end_node <= node + 1 by {
                        if i >= before.len() {
                            assert(result@[i] == interps@[i - before.len()]);
                        }
                    }
                }
            },
            None => {
                result.push(MorphInterpretation::create_ign(node, next, result_orth.as_str(), lookup_orth));
            },
        }
        Ok(1)
    }

    /// Adds the readings of a segment: the lexicon's analysis or the
    /// in-word graph when the orth is the segment itself, else as a token.
    fn push_segment_interpretations(&self, result: &mut Vec<MorphInterpretation>, lookup_orth: &str, result_orth: String, node: i32, Ghost(lo): Ghost<int>) -> (r: Result<i32>)
        requires
            self.wf(),
            0 <= lo <= node,
            nodes_within(old(result)@, lo, node as int),
        ensures
            r matches Ok(n) ==> n >= 1 && node + n <= i32::MAX && nodes_within(final(result)@, lo, node + n),
            self.spec_lexicon().without_analyzer() && node + node_span(lookup_orth@.len() as int) <= i32::MAX
                ==> (r matches Ok(n) && n <= node_span(lookup_orth@.len() as int)),
            knows_nothing(self.spec_lexicon()) && node < i32::MAX ==> (r matches Ok(n) && n == 1)
                && final(result)@.len() == old(result)@.len() + 1 && final(result)@.drop_last() == old(result)@
                && token_reading(final(result)@.last(), self.spec_lexicon().spec_resolver(), lookup_orth@, result_orth@, node as int),
    {
        proof {
            if knows_nothing(self.spec_lexicon()) {
                assert forall|s: int, e: int| !#[trigger] aglt_suffix_at(self.spec_lexicon(), lookup_orth@, s, e) by {
                    assert(self.spec_lexicon().spec_lookup(lookup_orth@.subrange(s, e)) is None);
                }
            }
        }
        if str_eq(result_orth.as_str(), lookup_orth) {
            match self.lexicon.analyze_word_interpretations(lookup_orth, node, self.config.case_handling(), self.config.segmentation())? {
                Some((interps, nodes)) => {
                    if nodes > i32::MAX - node {
                        return Err(Error::OutOfRange(owned("node number overflow")));
                    }
                    let ghost before = result@;
                    crate::binary::analyzer::append_all(result, interps);
                    proof {
                        assert forall|i: int| 0 <= i < result@.len() implies lo <= (#[trigger] result@[i]).start_node
                            && result@[i].end_node <= node + nodes by {
                            if i >= before.len() {
                                assert(result@[i] == interps@[i - before.len()]);
                            }
                        }
                    }
                    return Ok(nodes);
                },
                None => {},
            }
            match self.analyze_in_word_graph(lookup_orth, node)? {
                Some((interps, nodes)) => {
                    if nodes > i32::MAX - node {
                        return Err(Error::OutOfRange(owned("node number overflow")));
                    }
                    let ghost before = result@;
                    crate::binary::analyzer::append_all(result, interps);
                    proof {
                        assert forall|i: int| 0 <= i < result@.len() implies lo <= (#[trigger] result@[i]).start_node
                            && result@[i].end_node <= node + nodes by {
                            if i >= before.len() {
                                assert(result@[i] == interps@[i - before.len()]);
                            }
                        }
                    }
                    return Ok(nodes);
                },
                None => {},
            }
        }
        self.push_token_interpretations(result, lookup_orth, result_orth, node, Ghost(lo))
    }

    /// Adds the readings of a run of non-whitespace segments: the longest
    /// join of segments the lexicon knows, an unknown hyphenated word, or
    /// one segment at a time; the next free node.
    fn push_segment_run_interpretations(&self, result: &mut Vec<MorphInterpretation>, segments: &[Segment], start: usize, end: usize, first_node: i32, Ghost(lo): Ghost<int>) -> (r: Result<i32>)
        requires
            self.wf(),
            start <= end <= segments@.len(),
            0 <= lo <= first_node,
            nodes_within(old(result)@, lo, first_node as int),
        ensures
            r matches Ok(n) ==> first_node <= n && nodes_within(final(result)@, lo, n as int),
            self.spec_lexicon().without_analyzer() && first_node + run_cost(segments@, start as int, end as int) <= i32::MAX
                ==> (r matches Ok(n) && n <= first_node + run_cost(segments@, start as int, end as int)),
            knows_nothing(self.spec_lexicon()) && first_node + (end - start) <= i32::MAX ==> (r matches Ok(n)
                && n == first_node + run_tokens(segments@, start as int, end as int).len())
                && final(result)@.len() >= old(result)@.len()
                && final(result)@.take(old(result)@.len() as int) == old(result)@
                && token_readings(final(result)@.skip(old(result)@.len() as int), self.spec_lexicon().spec_resolver(),
                    run_tokens(segments@, start as int, end as int), first_node as int),
    {
        let start_node_arg = first_node;
        let mut node = first_node;
        let mut index = start;
        let ghost room = self.spec_lexicon().without_analyzer()
            && start_node_arg + run_cost(segments@, start as int, end as int) <= i32::MAX;
        let ghost nothing = knows_nothing(self.spec_lexicon()) && first_node + (end - start) <= i32::MAX;
        let ghost base = old(result)@.len() as int;
        let ghost res = self.spec_lexicon().spec_resolver();
        let ghost all = run_tokens(segments@, start as int, end as int);
        let ghost mut done: Seq<Seq<char>> = Seq::empty();
        proof {
            assert(result@.take(base) =~= old(result)@);
            assert(result@.skip(base) =~= Seq::<MorphInterpretation>::empty());
            assert(done + all =~= all);
        }
        while index < end
            invariant
                self.wf(),
                start <= index <= end <= segments@.len(),
                0 <= lo <= node,
                nodes_within(result@, lo, node as int),
                node >= start_node_arg,
                start_node_arg == first_node,
                room == (self.spec_lexicon().without_analyzer()
                    && start_node_arg + run_cost(segments@, start as int, end as int) <= i32::MAX),
                room ==> node <= start_node_arg + run_cost(segments@, start as int, index as int),
                nothing == (knows_nothing(self.spec_lexicon()) && first_node + (end - start) <= i32::MAX),
                base == old(result)@.len(),
                res == self.spec_lexicon().spec_resolver(),
                all == run_tokens(segments@, start as int, end as int),
                nothing ==> done + run_tokens(segments@, index as int, end as int) == all,
                nothing ==> node == first_node + done.len() && done.len() <= index - start,
                nothing ==> result@.len() >= base && result@.take(base) == old(result)@
                    && token_readings(result@.skip(base), res, done, first_node as int),
            decreases end - index,
        {
            proof {
                lemma_concat_split(segments@, start as int, index as int, end as int);
                if nothing {
                    lemma_hyphen_pairs_end_bound(segments@, index + 1, end as int);
                }
            }
            let ghost before = result@;
            match self.longest_known_join(segments, index, end) {
                Some((next_index, orth)) => {
                    proof {
                        if nothing {
                            assert(self.spec_lexicon().spec_lookup(concat(segments@.subrange(index as int, next_index as int))) is None);
                        }
                        lemma_concat_split(segments@, index as int, next_index as int, end as int);
                        lemma_concat_split(segments@, start as int, index as int, next_index as int);
                        assert(orth@.len() == concat(segments@.subrange(index as int, next_index as int)).len());
                        assert(node_span(orth@.len() as int) <= run_cost(segments@, index as int, next_index as int));
                        assert(run_cost(segments@, start as int, end as int) == run_cost(segments@, start as int, index as int)
                            + run_cost(segments@, index as int, next_index as int) + run_cost(segments@, next_index as int, end as int));
                        assert(room ==> node + node_span(orth@.len() as int) <= i32::MAX);
                    }
                    let pushed = self.push_segment_interpretations(result, orth.as_str(), owned(orth.as_str()), node, Ghost(lo));
                    proof {
                        if pushed is Err {
                            assert(!room);
                        }
                    }
                    let used = pushed?;
                    node = node + used;
                    index = next_index;
                },
                None => match self.unknown_hyphenated_span_end(segments, index, end) {
                    Some(next_index) => {
                        proof {
                            lemma_concat_split(segments@, index as int, next_index as int, end as int);
                            lemma_concat_split(segments@, start as int, index as int, next_index as int);
                            assert(run_cost(segments@, start as int, end as int) == run_cost(segments@, start as int, index as int)
                                + run_cost(segments@, index as int, next_index as int) + run_cost(segments@, next_index as int, end as int));
                            assert(room ==> node < i32::MAX);
                        }
                        let orth = join_segments(segments, index, next_index);
                        proof {
                            if nothing {
                                assert(!decomposable(self.spec_lexicon(), segments@, index as int, next_index as int)) by {
                                    if next_index - index == 3 {
                                        assert(self.spec_lexicon().spec_lookup(segments@[index as int].text@) is None);
                                    }
                                }
                            }
                        }
                        let pushed = self.push_token_interpretations(result, orth.as_str(), owned(orth.as_str()), node, Ghost(lo));
                        proof {
                            if pushed is Err {
                                assert(!room);
                            }
                        }
                        let used = pushed?;
                        proof {
                            if nothing {
                                let t = concat(segments@.subrange(index as int, next_index as int));
                                assert(run_tokens(segments@, index as int, end as int)
                                    == seq![t] + run_tokens(segments@, next_index as int, end as int));
                                assert(result@.skip(base) =~= before.skip(base).push(result@.last()));
                                assert(result@.take(base) =~= before.take(base));
                                assert(done.push(t) + run_tokens(segments@, next_index as int, end as int) =~= all);
                                done = done.push(t);
                            }
                        }
                        node = node + used;
                        index = next_index;
                    },
                    None => {
                        proof {
                            let i1 = index + 1;
                            lemma_concat_split(segments@, index as int, i1, end as int);
                            lemma_concat_split(segments@, start as int, index as int, i1);
                            assert(segments@.subrange(index as int, i1) =~= Seq::<Segment>::empty().push(segments@[index as int]));
                            lemma_concat_push(Seq::<Segment>::empty(), segments@[index as int]);
                            assert(concat(Seq::<Segment>::empty()) =~= Seq::<char>::empty());
                            assert(concat(segments@.subrange(index as int, i1)) =~= segments@[index as int].text@);
                        }
                        proof {
                            if nothing {
                                let h = hyphen_pairs_end(segments@, index + 1, end as int);
                                if word_segment(segments@[index as int]) && index + 1 < h {
                                    assert(!decomposable(self.spec_lexicon(), segments@, index as int, h)) by {
                                        if h - index == 3 {
                                            assert(self.spec_lexicon().spec_lookup(segments@[index as int].text@) is None);
                                        }
                                    }
                                }
                            }
                        }
                        let used = self.push_segment_interpretations(result, segments[index].text.as_str(), owned(segments[index].text.as_str()), node, Ghost(lo))?;
                        proof {
                            if nothing {
                                let t = segments@[index as int].text@;
                                assert(run_tokens(segments@, index as int, end as int)
                                    == seq![t] + run_tokens(segments@, index + 1, end as int));
                                assert(result@.skip(base) =~= before.skip(base).push(result@.last()));
                                assert(result@.take(base) =~= before.take(base));
                                assert(done.push(t) + run_tokens(segments@, index + 1, end as int) =~= all);
                                done = done.push(t);
                            }
                        }
                        node = node + used;
                        index = index + 1;
                    },
                },
            }
        }
        proof {
            if nothing {
                assert(done + Seq::<Seq<char>>::empty() =~= done);
            }
        }
        Ok(node)
    }

    /// The end of the longest join of two or more segments from `start`
    /// that the lexicon knows, and the joined text.
    fn longest_known_join(&self, segments: &[Segment], start: usize, end: usize) -> (r: Option<(usize, String)>)
        requires
            self.wf(),
            start < end <= segments@.len(),
        ensures
            r matches Some((e, s)) ==> start + 2 <= e <= end,
            r matches Some((e, s)) ==> s@ == concat(segments@.subrange(start as int, e as int))
                && known_join(self.spec_lexicon(), segments@, start as int, e as int)
                && forall|k: int| e < k <= end ==> !known_join(self.spec_lexicon(), segments@, start as int, k),
            r is None ==> forall|k: int| start + 2 <= k <= end ==> !known_join(self.spec_lexicon(), segments@, start as int, k),
    {
        let mut joined = String::new();
        let mut best: Option<(usize, String)> = None;
        let mut i = start;
        proof {
            assert(segments@.subrange(start as int, start as int) =~= Seq::<Segment>::empty());
        }
        while i < end
            invariant
                self.wf(),
                start <= i <= end <= segments@.len(),
                joined@ == concat(segments@.subrange(start as int, i as int)),
                best matches Some((e, s)) ==> start + 2 <= e <= i,
                best matches Some((e, s)) ==> s@ == concat(segments@.subrange(start as int, e as int))
                    && known_join(self.spec_lexicon(), segments@, start as int, e as int)
                    && forall|k: int| e < k <= i ==> !known_join(self.spec_lexicon(), segments@, start as int, k),
                best is None ==> forall|k: int| start + 2 <= k <= i ==> !known_join(self.spec_lexicon(), segments@, start as int, k),
            decreases end - i,
        {
            push_str(&mut joined, segments[i].text.as_str());
            proof {
                let before = segments@.subrange(start as int, i as int);
                assert(segments@.subrange(start as int, i + 1) =~= before.push(segments@[i as int]));
                lemma_concat_push(before, segments@[i as int]);
            }
            let next_index = i + 1;
            if i > start && self.lexicon.lookup(joined.as_str()).is_some() {
                best = Some((next_index, owned(joined.as_str())));
            }
            i = i + 1;
        }
        best
    }

    /// The end of a hyphenated word from `start` that cannot be split into
    /// an `adja` and an `adj:` entry.
    fn unknown_hyphenated_span_end(&self, segments: &[Segment], start: usize, end: usize) -> (r: Option<usize>)
        requires
            self.wf(),
            start < end <= segments@.len(),
        ensures
            r matches Some(e) ==> start + 3 <= e <= end,
            r is Some <==> word_segment(segments@[start as int]) && hyphen_pairs_end(segments@, start + 1, end as int) > start + 1
                && !decomposable(self.spec_lexicon(), segments@, start as int, hyphen_pairs_end(segments@, start + 1, end as int)),
            r matches Some(e) ==> e == hyphen_pairs_end(segments@, start + 1, end as int),
    {
        let span_end = match hyphenated_word_span_end(segments, start, end) {
            Some(e) => e,
            None => {
                return None;
            },
        };
        if self.can_decompose_hyphenated_span(segments, start, span_end) {
            None
        } else {
            Some(span_end)
        }
    }

    /// Whether a three-segment hyphenated word is an `adja` entry, a hyphen
    /// and an `adj:` entry.
    fn can_decompose_hyphenated_span(&self, segments: &[Segment], start: usize, end: usize) -> (r: bool)
        requires
            self.wf(),
            start < end <= segments@.len(),
        ensures
            r == decomposable(self.spec_lexicon(), segments@, start as int, end as int),
    {
        if end - start != 3 || !str_eq(segments[start + 1].text.as_str(), "-") {
            return false;
        }
        let left_entries = match self.lexicon.lookup(segments[start].text.as_str()) {
            Some(e) => e,
            None => {
                return false;
            },
        };
        let right_entries = match self.lexicon.lookup(segments[start + 2].text.as_str()) {
            Some(e) => e,
            None => {
                return false;
            },
        };
        let resolver = self.resolver();
        let ghost res = self.spec_lexicon().spec_resolver();
        let mut left_ok = false;
        let mut i: usize = 0;
        while i < left_entries.len()
            invariant
                i <= left_entries@.len(),
                *resolver == res,
                left_ok == exists|k: int| 0 <= k < i && #[trigger] tag_is(res, left_entries@[k].tag_id, "adja"@),
            decreases left_entries@.len() - i,
        {
            let ghost before = left_ok;
            match resolver.tag(left_entries[i].tag_id) {
                Some(t) => {
                    if str_eq(t, "adja") {
                        left_ok = true;
                    }
                },
                None => {},
            }
            proof {
                let here = tag_is(res, left_entries@[i as int].tag_id, "adja"@);
                assert(left_ok == (before || here));
                if here {
                    assert(0 <= i < i + 1 && tag_is(res, left_entries@[i as int].tag_id, "adja"@));
                }
                assert((exists|k: int| 0 <= k < i + 1 && #[trigger] tag_is(res, left_entries@[k].tag_id, "adja"@))
                    == (before || here)) by {
                    if exists|k: int| 0 <= k < i + 1 && #[trigger] tag_is(res, left_entries@[k].tag_id, "adja"@) {
                        let k = choose|k: int| 0 <= k < i + 1 && #[trigger] tag_is(res, left_entries@[k].tag_id, "adja"@);
                        if k < i {
                            assert(before);
                        }
                    }
                }
            }
            i = i + 1;
        }
        let mut right_ok = false;
        let mut j: usize = 0;
        while j < right_entries.len()
            invariant
                j <= right_entries@.len(),
                *resolver == res,
                right_ok == exists|k: int| 0 <= k < j && #[trigger] tag_starts(res, right_entries@[k].tag_id, "adj:"@),
            decreases right_entries@.len() - j,
        {
            let ghost before = right_ok;
            match resolver.tag(right_entries[j].tag_id) {
                Some(t) => {
                    if str_starts_with(t, "adj:") {
                        right_ok = true;
                    }
                },
                None => {},
            }
            proof {
                let here = tag_starts(res, right_entries@[j as int].tag_id, "adj:"@);
                assert(right_ok == (before || here));
                if here {
                    assert(0 <= j < j + 1 && tag_starts(res, right_entries@[j as int].tag_id, "adj:"@));
                }
                assert((exists|k: int| 0 <= k < j + 1 && #[trigger] tag_starts(res, right_entries@[k].tag_id, "adj:"@))
                    == (before || here)) by {
                    if exists|k: int| 0 <= k < j + 1 && #[trigger] tag_starts(res, right_entries@[k].tag_id, "adj:"@) {
                        let k = choose|k: int| 0 <= k < j + 1 && #[trigger] tag_starts(res, right_entries@[k].tag_id, "adj:"@);
                        if k < j {
                            assert(before);
                        }
                    }
                }
            }
            j = j + 1;
        }
        proof {
            let l = entries_view(left_entries@);
            let rr = entries_view(right_entries@);
            assert(left_ok == some_tag_is(l, res, "adja"@)) by {
                if left_ok {
                    let k = choose|k: int| 0 <= k < left_entries@.len() && #[trigger] tag_is(res, left_entries@[k].tag_id, "adja"@);
                    assert(l[k].tag_id == left_entries@[k].tag_id);
                }
                if some_tag_is(l, res, "adja"@) {
                    let k = choose|k: int| 0 <= k < l.len() && #[trigger] tag_is(res, l[k].tag_id, "adja"@);
                    assert(l[k].tag_id == left_entries@[k].tag_id);
                }
            }
            assert(right_ok == some_tag_starts(rr, res, "adj:"@)) by {
                if right_ok {
                    let k = choose|k: int| 0 <= k < right_entries@.len() && #[trigger] tag_starts(res, right_entries@[k].tag_id, "adj:"@);
                    assert(rr[k].tag_id == right_entries@[k].tag_id);
                }
                if some_tag_starts(rr, res, "adj:"@) {
                    let k = choose|k: int| 0 <= k < rr.len() && #[trigger] tag_starts(res, rr[k].tag_id, "adj:"@);
                    assert(rr[k].tag_id == right_entries@[k].tag_id);
                }
            }
        }
        left_ok && right_ok
    }

    /// The readings of a token as a graph of its dictionary substrings,
    /// used when one of them, not at its start, is an `aglt:` entry; the
    /// nodes are the substrings' bounds in order.
    fn analyze_in_word_graph(&self, token: &str, start_node: i32) -> (r: Result<Option<(Vec<MorphInterpretation>, i32)>>)
        requires
            self.wf(),
            0 <= start_node,
        ensures
            r matches Ok(Some((v, n))) ==> n >= 1 && start_node + n <= i32::MAX && nodes_within(v@, start_node as int, start_node + n),
            r matches Ok(Some((v, n))) ==> n <= token@.len(),
            start_node + token@.len() <= i32::MAX ==> r is Ok,
            r matches Ok(Some(_)) ==> exists|s: int, e: int| #[trigger] aglt_suffix_at(self.spec_lexicon(), token@, s, e),
            (forall|s: int, e: int| !#[trigger] aglt_suffix_at(self.spec_lexicon(), token@, s, e)) ==> r matches Ok(None),
            (exists|s: int, e: int| #[trigger] aglt_suffix_at(self.spec_lexicon(), token@, s, e))
                && start_node + token@.len() <= i32::MAX ==> r matches Ok(Some(_)),
            r matches Ok(Some((v, n))) ==> substring_readings(self.spec_lexicon(), token@, v@),
            r matches Ok(Some((v, n))) ==> all_entries_read(self.spec_lexicon(), token@, v@),
            r matches Ok(Some((v, n))) ==> graph_nodes(v@, token@, start_node as int, n as int),
    {
        let chars = chars_of(token);
        let n = chars.len();
        let mut bounds: Vec<usize> = Vec::new();
        insert_sorted_unique(&mut bounds, 0);
        insert_sorted_unique(&mut bounds, n);
        let mut matches: Vec<(usize, usize)> = Vec::new();
        let mut has_aglt_suffix = false;
        let mut s: usize = 0;
        while s < n
            invariant
                self.wf(),
                n == chars@.len(),
                s <= n,
                has_aglt_suffix ==> 0 < n,
                forall|a: int, b: int| 0 <= a < b < bounds@.len() ==> bounds@[a] < bounds@[b],
                bounds@.contains(0usize),
                bounds@.contains(n),
                forall|x: usize| #[trigger] bounds@.contains(x) ==> x <= n,
                forall|k: int| 0 <= k < matches@.len() ==> (#[trigger] matches@[k]).0 < matches@[k].1 <= n
                    && bounds@.contains(matches@[k].0) && bounds@.contains(matches@[k].1),
                chars@ == token@,
                has_aglt_suffix == aglt_before(self.spec_lexicon(), token@, s as int, s as int),
                forall|k: int| 0 <= k < matches@.len() ==> known_substring(self.spec_lexicon(), token@,
                    (#[trigger] matches@[k]).0 as int, matches@[k].1 as int),
                forall|a: int, b: int| #[trigger] known_substring(self.spec_lexicon(), token@, a, b) && a < s
                    ==> matches@.contains((a as usize, b as usize)),
            decreases n - s,
        {
            let mut e: usize = s;
            while e < n
                invariant
                    self.wf(),
                    n == chars@.len(),
                    s <= e,
                    s < n,
                    has_aglt_suffix ==> 0 < n,
                    e <= n,
                    forall|a: int, b: int| 0 <= a < b < bounds@.len() ==> bounds@[a] < bounds@[b],
                    bounds@.contains(0usize),
                    bounds@.contains(n),
                    forall|x: usize| #[trigger] bounds@.contains(x) ==> x <= n,
                    forall|k: int| 0 <= k < matches@.len() ==> (#[trigger] matches@[k]).0 < matches@[k].1 <= n
                        && bounds@.contains(matches@[k].0) && bounds@.contains(matches@[k].1),
                    chars@ == token@,
                    has_aglt_suffix == aglt_before(self.spec_lexicon(), token@, s as int, e as int),
                    forall|k: int| 0 <= k < matches@.len() ==> known_substring(self.spec_lexicon(), token@,
                        (#[trigger] matches@[k]).0 as int, matches@[k].1 as int),
                    forall|a: int, b: int| #[trigger] known_substring(self.spec_lexicon(), token@, a, b)
                        && (a < s || (a == s && b <= e)) ==> matches@.contains((a as usize, b as usize)),
                decreases n + 1 - e,
            {
                e = e + 1;
                let slice = string_from_char_range(chars.as_slice(), s, e);
                let ghost was = has_aglt_suffix;
                let found = self.lexicon.lookup(slice.as_str());
                proof {
                    assert(slice@ == token@.subrange(s as int, e as int));
                    assert(entries_option(found) == self.spec_lexicon().spec_lookup(token@.subrange(s as int, e as int)));
                }
                match found {
                    Some(entries) => {
                        let tagged = s > 0 && self.any_tag_with_prefix(entries, "aglt:");
                        proof {
                            let es = entries_view(entries@);
                            if tagged {
                                let i = choose|i: int| 0 <= i < entries@.len()
                                    && #[trigger] tag_starts(self.spec_lexicon().spec_resolver(), entries@[i].tag_id, "aglt:"@);
                                assert(es.len() == entries@.len());
                                assert(es[i].tag_id == entries@[i].tag_id);
                                assert(self.spec_lexicon().spec_lookup(token@.subrange(s as int, e as int)) == Some(es));
                                assert(tag_starts(self.spec_lexicon().spec_resolver(), es[i].tag_id, "aglt:"@));
                                let lex = self.spec_lexicon();
                                assert(lex.spec_lookup(token@.subrange(s as int, e as int)) matches Some(es2) && es2 == es);
                                assert(exists|i2: int| 0 <= i2 < es.len() && #[trigger] tag_starts(lex.spec_resolver(), es[i2].tag_id, "aglt:"@));
                                assert(aglt_suffix_at(lex, token@, s as int, e as int));
                            } else {
                                if aglt_suffix_at(self.spec_lexicon(), token@, s as int, e as int) {
                                    let i = choose|i: int| 0 <= i < es.len()
                                        && #[trigger] tag_starts(self.spec_lexicon().spec_resolver(), es[i].tag_id, "aglt:"@);
                                    assert(es[i].tag_id == entries@[i].tag_id);
                                    assert(false);
                                }
                            }
                        }
                        if tagged {
                            has_aglt_suffix = true;
                        }
                        let ghost b0 = bounds@;
                        insert_sorted_unique(&mut bounds, s);
                        insert_sorted_unique(&mut bounds, e);
                        let ghost m0 = matches@;
                        matches.push((s, e));
                        proof {
                            assert forall|k: int| 0 <= k < matches@.len() implies (#[trigger] matches@[k]).0 < matches@[k].1 <= n
                                && bounds@.contains(matches@[k].0) && bounds@.contains(matches@[k].1) by {
                                if k < m0.len() {
                                    assert(matches@[k] == m0[k]);
                                }
                            }
                            assert(known_substring(self.spec_lexicon(), token@, s as int, e as int));
                            assert forall|k: int| 0 <= k < matches@.len() implies known_substring(self.spec_lexicon(), token@,
                                (#[trigger] matches@[k]).0 as int, matches@[k].1 as int) by {
                                if k < m0.len() {
                                    assert(matches@[k] == m0[k]);
                                }
                            }
                            assert(matches@[m0.len() as int] == (s, e));
                            assert forall|a: int, b: int| #[trigger] known_substring(self.spec_lexicon(), token@, a, b)
                                && (a < s || (a == s && b <= e)) implies matches@.contains((a as usize, b as usize)) by {
                                if a == s && b == e {
                                    assert(matches@[m0.len() as int] == (a as usize, b as usize));
                                } else {
                                    assert(m0.contains((a as usize, b as usize)));
                                    let i = choose|i: int| 0 <= i < m0.len() && m0[i] == (a as usize, b as usize);
                                    assert(matches@[i] == m0[i]);
                                }
                            }
                        }
                    },
                    None => {
                        proof {
                            assert(!known_substring(self.spec_lexicon(), token@, s as int, e as int));
                        }
                    },
                }
            }
            s = s + 1;
        }
        if !has_aglt_suffix {
            return Ok(None);
        }
        let count = bounds.len();
        proof {
            lemma_increasing_bounded_len(bounds@, n as int);
            assert(count <= n + 1);
            if count < 2 {
                assert(bounds@.contains(0usize) && bounds@.contains(n));
                let a = choose|a: int| 0 <= a < bounds@.len() && bounds@[a] == 0usize;
                let b = choose|b: int| 0 <= b < bounds@.len() && bounds@[b] == n;
                assert(a == b);
                assert(n == 0);
            }
        }
        if count < 2 || count - 1 > (i32::MAX - start_node) as usize {
            return Err(Error::OutOfRange(owned("node number overflow")));
        }
        let nodes = (count - 1) as i32;
        let ghost pos: Seq<int> = bounds@.map_values(|x: usize| x as int);
        proof {
            let a = choose|a: int| 0 <= a < bounds@.len() && bounds@[a] == 0usize;
            if a > 0 {
                assert(bounds@[0] < bounds@[a]);
            }
            let b = choose|b: int| 0 <= b < bounds@.len() && bounds@[b] == n;
            let last = bounds@.len() - 1;
            if b < last {
                assert(bounds@[b] < bounds@[last]);
                assert(bounds@.contains(bounds@[last]));
            }
            assert(pos[0] == 0);
            assert(pos[pos.len() - 1] == n);
        }
        let mut result: Vec<MorphInterpretation> = Vec::new();
        let mut k: usize = 0;
        while k < matches.len()
            invariant
                pos == bounds@.map_values(|x: usize| x as int),
                forall|i: int| 0 <= i < result@.len() ==> #[trigger] edge_over_positions(result@[i], token@, start_node as int, pos),
                self.wf(),
                n == chars@.len(),
                count == bounds@.len(),
                2 <= count,
                0 <= start_node,
                nodes == count - 1,
                start_node + nodes <= i32::MAX,
                forall|k2: int| 0 <= k2 < matches@.len() ==> (#[trigger] matches@[k2]).0 < matches@[k2].1 <= n,
                nodes_within(result@, start_node as int, start_node + nodes),
                chars@ == token@,
                substring_readings(self.spec_lexicon(), token@, result@),
                k <= matches@.len(),
                forall|a: int, b: int| 0 <= a < b < bounds@.len() ==> bounds@[a] < bounds@[b],
                forall|k2: int| 0 <= k2 < matches@.len() ==> bounds@.contains((#[trigger] matches@[k2]).0)
                    && bounds@.contains(matches@[k2].1),
                forall|k2: int| 0 <= k2 < matches@.len() ==> known_substring(self.spec_lexicon(), token@,
                    (#[trigger] matches@[k2]).0 as int, matches@[k2].1 as int),
                forall|k2: int, j2: int| 0 <= k2 < k && #[trigger] known_entry(self.spec_lexicon(), token@,
                    matches@[k2].0 as int, matches@[k2].1 as int, j2)
                    ==> entry_read(self.spec_lexicon(), token@, result@, matches@[k2].0 as int, matches@[k2].1 as int, j2),
            decreases matches@.len() - k,
        {
            let (s, e) = matches[k];
            k = k + 1;
            proof {
                assert(matches@[k - 1] == (s, e));
            }
            let local_start = match graph_boundary_index(bounds.as_slice(), s) {
                Some(i) => i,
                None => {
                    proof {
                        let i = choose|i: int| 0 <= i < bounds@.len() && bounds@[i] == s;
                    }
                    continue;
                },
            };
            let local_end = match graph_boundary_index(bounds.as_slice(), e) {
                Some(i) => i,
                None => {
                    proof {
                        let i = choose|i: int| 0 <= i < bounds@.len() && bounds@[i] == e;
                    }
                    continue;
                },
            };
            if local_end > nodes as usize || local_start > local_end {
                proof {
                    if local_start > local_end {
                        assert(bounds@[local_end as int] < bounds@[local_start as int]);
                    }
                }
                continue;
            }
            let from = start_node + local_start as i32;
            let to = start_node + local_end as i32;
            let orth = string_from_char_range(chars.as_slice(), s, e);
            let found = self.lexicon.lookup(orth.as_str());
            proof {
                assert(orth@ == token@.subrange(s as int, e as int));
            }
            match found {
                Some(entries) => {
                    let mut j: usize = 0;
                    while j < entries.len()
                        invariant
                            j <= entries@.len(),
                            start_node <= from <= to <= start_node + nodes,
                            nodes_within(result@, start_node as int, start_node + nodes),
                            0 <= s < e <= token@.len(),
                            orth@ == token@.subrange(s as int, e as int),
                            self.spec_lexicon().spec_lookup(token@.subrange(s as int, e as int)) == Some(entries_view(entries@)),
                            substring_readings(self.spec_lexicon(), token@, result@),
                            1 <= k <= matches@.len(),
                            matches@[k - 1] == (s, e),
                            forall|k2: int, j2: int| 0 <= k2 < k - 1 && #[trigger] known_entry(self.spec_lexicon(), token@,
                                matches@[k2].0 as int, matches@[k2].1 as int, j2)
                                ==> entry_read(self.spec_lexicon(), token@, result@, matches@[k2].0 as int, matches@[k2].1 as int, j2),
                            forall|j2: int| 0 <= j2 < j ==> #[trigger] entry_read(self.spec_lexicon(), token@, result@, s as int, e as int, j2),
                            pos == bounds@.map_values(|x: usize| x as int),
                            count == bounds@.len(),
                            nodes == count - 1,
                            from == start_node + local_start,
                            to == start_node + local_end,
                            local_start < local_end <= nodes,
                            bounds@[local_start as int] == s,
                            bounds@[local_end as int] == e,
                            forall|i: int| 0 <= i < result@.len() ==> #[trigger] edge_over_positions(result@[i], token@, start_node as int, pos),
                        decreases entries@.len() - j,
                    {
                        let ghost before = result@;
                        let m = entry_to_interpretation(&entries[j], from, to, owned(orth.as_str()));
                        proof {
                            let es = entries_view(entries@);
                            assert(es[j as int] == entry_view(entries@[j as int]));
                            assert(reading_of(m, es[j as int], m.start_node as int, m.end_node as int, token@.subrange(s as int, e as int)));
                            let lex = self.spec_lexicon();
                            let sub = token@.subrange(s as int, e as int);
                            assert(m.orth@ == sub);
                            assert(lex.spec_lookup(sub)->Some_0 == es);
                            assert(reading_of(m, lex.spec_lookup(sub)->Some_0[j as int], m.start_node as int, m.end_node as int, sub));
                            assert(substring_reading_at(lex, token@, m, s as int, e as int));
                        }
                        result.push(m);
                        proof {
                            lemma_substring_readings_push(self.spec_lexicon(), token@, before, m, s as int, e as int);
                            assert(result@ == before.push(m));
                            let lex = self.spec_lexicon();
                            assert forall|a: int, b: int, j2: int| entry_read(lex, token@, before, a, b, j2)
                                implies #[trigger] entry_read(lex, token@, result@, a, b, j2) by {
                                let i = choose|i: int| 0 <= i < before.len() && #[trigger] reading_of(before[i],
                                    lex.spec_lookup(token@.subrange(a, b))->Some_0[j2], before[i].start_node as int,
                                    before[i].end_node as int, token@.subrange(a, b));
                                assert(result@[i] == before[i]);
                            }
                            assert(result@[before.len() as int] == m);
                            assert(entry_read(lex, token@, result@, s as int, e as int, j as int));
                            assert(pos[local_start as int] == s && pos[local_end as int] == e);
                            assert forall|i: int| 0 <= i < result@.len() implies #[trigger] edge_over_positions(result@[i], token@, start_node as int, pos) by {
                                if i < before.len() {
                                    assert(result@[i] == before[i]);
                                }
                            }
                        }
                        j = j + 1;
                    }
                    proof {
                        assert forall|k2: int, j2: int| 0 <= k2 < k && #[trigger] known_entry(self.spec_lexicon(), token@,
                            matches@[k2].0 as int, matches@[k2].1 as int, j2)
                            implies entry_read(self.spec_lexicon(), token@, result@, matches@[k2].0 as int, matches@[k2].1 as int, j2) by {
                            if k2 == k - 1 {
                                assert(entries_view(entries@).len() == entries@.len());
                            }
                        }
                    }
                },
                None => {
                    proof {
                        assert(known_substring(self.spec_lexicon(), token@, s as int, e as int));
                    }
                },
            }
        }
        proof {
            assert(graph_over_positions(result@, token@, start_node as int, pos));
            assert(pos.len() == nodes + 1);
            assert(graph_nodes(result@, token@, start_node as int, nodes as int));
            let lex = self.spec_lexicon();
            assert forall|a: int, b: int, j2: int| #[trigger] known_entry(lex, token@, a, b, j2)
                implies entry_read(lex, token@, result@, a, b, j2) by {
                assert(known_substring(lex, token@, a, b));
                assert(matches@.contains((a as usize, b as usize)));
                let k2 = choose|k2: int| 0 <= k2 < matches@.len() && matches@[k2] == (a as usize, b as usize);
                assert(known_entry(lex, token@, matches@[k2].0 as int, matches@[k2].1 as int, j2));
            }
        }
        Ok(Some((result, nodes)))
    }

    /// Whether an entry's tag starts with the prefix.
    fn any_tag_with_prefix(&self, entries: &[DictionaryEntry], prefix: &str) -> (r: bool)
        requires
            self.wf(),
        ensures
            r == exists|i: int| 0 <= i < entries@.len()
                && #[trigger] tag_starts(self.spec_lexicon().spec_resolver(), entries@[i].tag_id, prefix@),
    {
        let resolver = self.resolver();
        let mut i: usize = 0;
        while i < entries.len()
            invariant
                i <= entries@.len(),
                *resolver == self.spec_lexicon().spec_resolver(),
                forall|k: int| 0 <= k < i ==> !#[trigger] tag_starts(self.spec_lexicon().spec_resolver(), entries@[k].tag_id, prefix@),
            decreases entries@.len() - i,
        {
            match resolver.tag(entries[i].tag_id) {
                Some(t) => {
                    if str_starts_with(t, prefix) {
                        proof {
                            assert(tag_starts(self.spec_lexicon().spec_resolver(), entries@[i as int].tag_id, prefix@));
                        }
                        return true;
                    }
                },
                None => {},
            }
            i = i + 1;
        }
        false
    }

    /// A `dig` reading of a number made of ASCII digits.
    fn digit_interpretation(&self, text: &str, start_node: i32, end_node: i32, orth: &str) -> (r: Option<MorphInterpretation>)
        requires
            self.wf(),
        ensures
            r matches Some(m) ==> m.start_node == start_node && m.end_node == end_node,
            r is Some <==> all_digits(text@) && self.spec_lexicon().spec_resolver().tag_map().dom().contains("dig"@),
            r matches Some(m) ==> m.orth@ == orth@ && m.lemma@ == text@
                && m.tag_id == self.spec_lexicon().spec_resolver().tag_map()["dig"@] && m.name_id == 0 && m.labels_id == 0,
    {
        tsv_digit_interpretation(self.resolver(), text, start_node, end_node, orth)
    }

    /// A `romandig` reading of a roman numeral, its lemma in uppercase.
    fn roman_interpretation(&self, text: &str, start_node: i32, end_node: i32, orth: &str) -> (r: Option<MorphInterpretation>)
        requires
            self.wf(),
        ensures
            r matches Some(m) ==> m.start_node == start_node && m.end_node == end_node,
            r is Some <==> roman_ok(vstd::utf8::encode_utf8(uppercased(text@)))
                && self.spec_lexicon().spec_resolver().tag_map().contains_key("romandig"@),
            r matches Some(m) ==> m.orth@ == orth@ && m.lemma@ == uppercased(text@)
                && m.tag_id == self.spec_lexicon().spec_resolver().tag_map()["romandig"@]
                && m.name_id == 0 && m.labels_id == 0,
    {
        let normalized = ascii_uppercase(text);
        if !is_valid_roman_numeral(normalized.as_str()) {
            return None;
        }
        let tag_id = match self.resolver().tag_id("romandig") {
            Ok(id) => id,
            Err(_) => {
                return None;
            },
        };
        Some(MorphInterpretation {
            start_node,
            end_node,
            orth: owned(orth),
            lemma: normalized,
            tag_id,
            name_id: 0,
            labels_id: 0,
        })
    }
}

/// The tagset names the tag `id` and its name is `tag`.
pub open spec fn tag_is(resolver: IdResolver, id: i32, tag: Seq<char>) -> bool {
    resolver.has_tag(id as int) && resolver.spec_tag(id as int) == tag
}

/// `m` reads the substring `token[s..e]` by one of the entries the
/// lexicon lists under it.
pub open spec fn substring_reading_at(lex: AnyLexicon, token: Seq<char>, m: MorphInterpretation, s: int, e: int) -> bool {
    &&& 0 <= s < e <= token.len()
    &&& m.orth@ == token.subrange(s, e)
    &&& lex.spec_lookup(token.subrange(s, e)) is Some
    &&& exists|j: int| 0 <= j < lex.spec_lookup(token.subrange(s, e))->Some_0.len()
        && #[trigger] reading_of(m, lex.spec_lookup(token.subrange(s, e))->Some_0[j], m.start_node as int,
            m.end_node as int, token.subrange(s, e))
}

/// Every reading is one of a dictionary substring of the token.
pub open spec fn substring_readings(lex: AnyLexicon, token: Seq<char>, v: Seq<MorphInterpretation>) -> bool {
    forall|i: int| 0 <= i < v.len() ==> #[trigger] read_from_substring(lex, token, v[i])
}

/// The nodes from `start` on stand for the character positions `pos`, in
/// increasing order from the token's start to its end, and each reading's
/// form is the text between the positions of its two nodes.
pub open spec fn graph_over_positions(v: Seq<MorphInterpretation>, token: Seq<char>, start: int, pos: Seq<int>) -> bool {
    &&& pos.len() >= 2
    &&& pos[0] == 0
    &&& pos[pos.len() - 1] == token.len()
    &&& forall|a: int, b: int| 0 <= a < b < pos.len() ==> pos[a] < pos[b]
    &&& forall|i: int| 0 <= i < v.len() ==> #[trigger] edge_over_positions(v[i], token, start, pos)
}

/// The `n + 1` nodes from `start` on stand for increasing character
/// positions of the token, and each reading's form is the text between
/// the positions of its two nodes.
pub open spec fn graph_nodes(v: Seq<MorphInterpretation>, token: Seq<char>, start: int, n: int) -> bool {
    exists|pos: Seq<int>| #[trigger] graph_over_positions(v, token, start, pos) && pos.len() == n + 1
}

/// The reading joins two of the nodes standing for `pos`, and its form is
/// the text between their positions.
pub open spec fn edge_over_positions(m: MorphInterpretation, token: Seq<char>, start: int, pos: Seq<int>) -> bool {
    &&& start <= m.start_node < m.end_node < start + pos.len()
    &&& m.orth@ == token.subrange(pos[m.start_node - start], pos[m.end_node - start])
}

/// The substring `token[a..b]` is a form the lexicon lists.
pub open spec fn known_substring(lex: AnyLexicon, token: Seq<char>, a: int, b: int) -> bool {
    0 <= a < b <= token.len() && lex.spec_lookup(token.subrange(a, b)) is Some
}

/// `j` is an entry the lexicon lists under the substring `token[a..b]`.
pub open spec fn known_entry(lex: AnyLexicon, token: Seq<char>, a: int, b: int, j: int) -> bool {
    known_substring(lex, token, a, b) && 0 <= j < lex.spec_lookup(token.subrange(a, b))->Some_0.len()
}

/// Some reading reads the substring `token[a..b]` by its entry `j`.
pub open spec fn entry_read(lex: AnyLexicon, token: Seq<char>, v: Seq<MorphInterpretation>, a: int, b: int, j: int) -> bool {
    exists|i: int| 0 <= i < v.len() && #[trigger] reading_of(v[i], lex.spec_lookup(token.subrange(a, b))->Some_0[j],
        v[i].start_node as int, v[i].end_node as int, token.subrange(a, b))
}

/// Every entry listed under a substring of the token gives a reading.
pub open spec fn all_entries_read(lex: AnyLexicon, token: Seq<char>, v: Seq<MorphInterpretation>) -> bool {
    forall|a: int, b: int, j: int| #[trigger] known_entry(lex, token, a, b, j) ==> entry_read(lex, token, v, a, b, j)
}

/// `m` reads some dictionary substring of the token.
pub open spec fn read_from_substring(lex: AnyLexicon, token: Seq<char>, m: MorphInterpretation) -> bool {
    exists|s: int, e: int| #[trigger] substring_reading_at(lex, token, m, s, e)
}

proof fn lemma_substring_readings_push(lex: AnyLexicon, token: Seq<char>, v: Seq<MorphInterpretation>,
    m: MorphInterpretation, s: int, e: int)
    requires
        substring_readings(lex, token, v),
        substring_reading_at(lex, token, m, s, e),
    ensures
        substring_readings(lex, token, v.push(m)),
{
    assert forall|i: int| 0 <= i < v.push(m).len() implies #[trigger] read_from_substring(lex, token, v.push(m)[i]) by {
        if i < v.len() {
            assert(v.push(m)[i] == v[i]);
            assert(read_from_substring(lex, token, v[i]));
        } else {
            assert(v.push(m)[i] == m);
            assert(substring_reading_at(lex, token, v.push(m)[i], s, e));
        }
    }
}

/// The tagset names the tag `id` and its name starts with `prefix`.
pub open spec fn tag_starts(resolver: IdResolver, id: i32, prefix: Seq<char>) -> bool {
    &&& resolver.has_tag(id as int)
    &&& prefix.len() <= resolver.spec_tag(id as int).len()
    &&& resolver.spec_tag(id as int).take(prefix.len() as int) == prefix
}

/// Some entry has the tag `tag`.
pub open spec fn some_tag_is(entries: Seq<EntryView>, resolver: IdResolver, tag: Seq<char>) -> bool {
    exists|i: int| 0 <= i < entries.len() && #[trigger] tag_is(resolver, entries[i].tag_id, tag)
}

/// Some entry has a tag that starts with `prefix`.
pub open spec fn some_tag_starts(entries: Seq<EntryView>, resolver: IdResolver, prefix: Seq<char>) -> bool {
    exists|i: int| 0 <= i < entries.len() && #[trigger] tag_starts(resolver, entries[i].tag_id, prefix)
}

/// The texts of segments `start..k`, joined, are a form the lexicon lists.
pub open spec fn known_join(lex: AnyLexicon, segments: Seq<Segment>, start: int, k: int) -> bool {
    lex.spec_lookup(concat(segments.subrange(start, k))) is Some
}

/// The lexicon analyzes no whole word and lists no form: nothing in a text
/// is known to it.
pub open spec fn knows_nothing(lex: AnyLexicon) -> bool {
    lex.without_analyzer() && forall|s: Seq<char>| #[trigger] lex.spec_lookup(s) is None
}

/// The one reading a token `lookup` reported as `orth` gets on edge
/// `node..node + 1` from a lexicon that knows nothing: a number reading for
/// digits, a roman numeral reading, else an unknown-word reading; the tagset
/// must have the tag for the first two.
pub open spec fn token_reading(m: MorphInterpretation, res: IdResolver, lookup: Seq<char>, orth: Seq<char>, node: int) -> bool {
    &&& m.start_node == node
    &&& m.end_node == node + 1
    &&& m.orth@ == orth
    &&& m.name_id == 0
    &&& m.labels_id == 0
    &&& if all_digits(lookup) && res.tag_map().dom().contains("dig"@) {
        m.lemma@ == lookup && m.tag_id == res.tag_map()["dig"@]
    } else if roman_ok(vstd::utf8::encode_utf8(uppercased(lookup))) && res.tag_map().contains_key("romandig"@) {
        m.lemma@ == uppercased(lookup) && m.tag_id == res.tag_map()["romandig"@]
    } else {
        m.lemma@ == lookup && m.tag_id == 0
    }
}

/// The tokens of non-whitespace segments `i..end` for a lexicon that knows
/// nothing: a word followed by hyphen-word pairs is one token, any other
/// segment a token of its own.
pub open spec fn run_tokens(segs: Seq<Segment>, i: int, end: int) -> Seq<Seq<char>>
    decreases end - i,
{
    if i < 0 || i >= end {
        Seq::empty()
    } else {
        let h = hyphen_pairs_end(segs, i + 1, end);
        if word_segment(segs[i]) && i + 1 < h <= end {
            seq![concat(segs.subrange(i, h))] + run_tokens(segs, h, end)
        } else {
            seq![segs[i].text@] + run_tokens(segs, i + 1, end)
        }
    }
}

proof fn lemma_hyphen_pairs_end_bound(segs: Seq<Segment>, i: int, end: int)
    requires
        0 <= i <= end,
    ensures
        i <= hyphen_pairs_end(segs, i, end) <= end,
    decreases end - i,
{
    if i + 1 < end && segs[i].text@ == "-"@ && word_segment(segs[i + 1]) {
        lemma_hyphen_pairs_end_bound(segs, i + 2, end);
    }
}

/// Where the run of non-whitespace segments from `i` ends.
pub open spec fn nonws_end(segs: Seq<Segment>, i: int) -> int
    decreases segs.len() - i,
{
    if 0 <= i < segs.len() && !segs[i].is_whitespace { nonws_end(segs, i + 1) } else { i }
}

proof fn lemma_nonws_end(segs: Seq<Segment>, i: int, r: int)
    requires
        0 <= i <= r <= segs.len(),
        forall|k: int| i <= k < r ==> !(#[trigger] segs[k]).is_whitespace,
        r < segs.len() ==> segs[r].is_whitespace,
    ensures
        nonws_end(segs, i) == r,
    decreases r - i,
{
    if i < r {
        lemma_nonws_end(segs, i + 1, r);
    }
}

pub proof fn lemma_nonws_end_after(segs: Seq<Segment>, i: int)
    requires
        0 <= i < segs.len(),
        !segs[i].is_whitespace,
    ensures
        i < nonws_end(segs, i) <= segs.len(),
    decreases segs.len() - i,
{
    if i + 1 < segs.len() && !segs[i + 1].is_whitespace {
        lemma_nonws_end_after(segs, i + 1);
    } else {
        assert(nonws_end(segs, i + 1) == i + 1);
    }
}

/// The tokens of segments `i..` for a lexicon that knows nothing, with
/// whitespace dropped.
pub open spec fn skip_tokens(segs: Seq<Segment>, i: int) -> Seq<Seq<char>>
    decreases segs.len() - i,
{
    if i < 0 || i >= segs.len() {
        Seq::empty()
    } else if segs[i].is_whitespace {
        skip_tokens(segs, i + 1)
    } else {
        let e = nonws_end(segs, i);
        proof {
            lemma_nonws_end_after(segs, i);
        }
        run_tokens(segs, i, e) + skip_tokens(segs, e)
    }
}

proof fn lemma_token_readings_append(v1: Seq<MorphInterpretation>, v2: Seq<MorphInterpretation>, res: IdResolver,
    t1: Seq<Seq<char>>, t2: Seq<Seq<char>>, node: int)
    requires
        token_readings(v1, res, t1, node),
        token_readings(v2, res, t2, node + t1.len()),
    ensures
        token_readings(v1 + v2, res, t1 + t2, node),
{
    assert forall|k: int| 0 <= k < (v1 + v2).len() implies token_reading(#[trigger] (v1 + v2)[k], res, (t1 + t2)[k], (t1 + t2)[k], node + k) by {
        if k >= v1.len() {
            assert((v1 + v2)[k] == v2[k - v1.len()]);
            assert((t1 + t2)[k] == t2[k - t1.len()]);
            assert(token_reading(v2[k - v1.len()], res, t2[k - t1.len()], t2[k - t1.len()], node + t1.len() + (k - v1.len())));
        }
    }
}

proof fn lemma_run_tokens_len(segs: Seq<Segment>, i: int, end: int)
    requires
        0 <= i <= end,
    ensures
        run_tokens(segs, i, end).len() <= end - i,
    decreases end - i,
{
    if i < end {
        let h = hyphen_pairs_end(segs, i + 1, end);
        if word_segment(segs[i]) && i + 1 < h <= end {
            lemma_run_tokens_len(segs, h, end);
        } else {
            lemma_run_tokens_len(segs, i + 1, end);
        }
    }
}

/// The pieces of segments `i..` with whitespace kept: each whitespace
/// segment, then the tokens of each non-whitespace run, for a lexicon that
/// knows nothing; `true` marks whitespace.
pub open spec fn keep_items(segs: Seq<Segment>, i: int) -> Seq<(bool, Seq<char>)>
    decreases segs.len() - i,
{
    if i < 0 || i >= segs.len() {
        Seq::empty()
    } else if segs[i].is_whitespace {
        seq![(true, segs[i].text@)] + keep_items(segs, i + 1)
    } else {
        let e = nonws_end(segs, i);
        proof {
            lemma_nonws_end_after(segs, i);
        }
        run_tokens(segs, i, e).map_values(|t: Seq<char>| (false, t)) + keep_items(segs, e)
    }
}

/// The reading of a piece on edge `node..node + 1`: a whitespace edge, or
/// the token's reading.
pub open spec fn item_reading(m: MorphInterpretation, res: IdResolver, item: (bool, Seq<char>), node: int) -> bool {
    if item.0 { whitespace_edge(m, node, item.1) } else { token_reading(m, res, item.1, item.1, node) }
}

/// The readings are those of the pieces, one edge each from node `node` on.
pub open spec fn item_readings(v: Seq<MorphInterpretation>, res: IdResolver, items: Seq<(bool, Seq<char>)>, node: int) -> bool {
    &&& v.len() == items.len()
    &&& forall|k: int| 0 <= k < v.len() ==> item_reading(#[trigger] v[k], res, items[k], node + k)
}

proof fn lemma_item_readings_append(v1: Seq<MorphInterpretation>, v2: Seq<MorphInterpretation>, res: IdResolver,
    t1: Seq<(bool, Seq<char>)>, t2: Seq<(bool, Seq<char>)>, node: int)
    requires
        item_readings(v1, res, t1, node),
        item_readings(v2, res, t2, node + t1.len()),
    ensures
        item_readings(v1 + v2, res, t1 + t2, node),
{
    assert forall|k: int| 0 <= k < (v1 + v2).len() implies item_reading(#[trigger] (v1 + v2)[k], res, (t1 + t2)[k], node + k) by {
        if k >= v1.len() {
            assert((v1 + v2)[k] == v2[k - v1.len()]);
            assert((t1 + t2)[k] == t2[k - t1.len()]);
            assert(item_reading(v2[k - v1.len()], res, t2[k - t1.len()], node + t1.len() + (k - v1.len())));
        }
    }
}

proof fn lemma_token_item_readings(v: Seq<MorphInterpretation>, res: IdResolver, t: Seq<Seq<char>>, node: int)
    requires
        token_readings(v, res, t, node),
    ensures
        item_readings(v, res, t.map_values(|x: Seq<char>| (false, x)), node),
{
    assert forall|k: int| 0 <= k < v.len() implies item_reading(#[trigger] v[k], res, t.map_values(|x: Seq<char>| (false, x))[k], node + k) by {
        assert(token_reading(v[k], res, t[k], t[k], node + k));
    }
}

/// Where the run of whitespace segments from `i` ends.
pub open spec fn ws_end(segs: Seq<Segment>, i: int) -> int
    decreases segs.len() - i,
{
    if 0 <= i < segs.len() && segs[i].is_whitespace { ws_end(segs, i + 1) } else { i }
}

pub proof fn lemma_ws_end(segs: Seq<Segment>, i: int)
    requires
        0 <= i <= segs.len(),
    ensures
        i <= ws_end(segs, i) <= segs.len(),
        forall|k: int| i <= k < ws_end(segs, i) ==> (#[trigger] segs[k]).is_whitespace,
        ws_end(segs, i) < segs.len() ==> !segs[ws_end(segs, i)].is_whitespace,
    decreases segs.len() - i,
{
    if i < segs.len() && segs[i].is_whitespace {
        lemma_ws_end(segs, i + 1);
    }
}

proof fn lemma_ws_end_at(segs: Seq<Segment>, i: int, r: int)
    requires
        0 <= i <= r <= segs.len(),
        forall|k: int| i <= k < r ==> (#[trigger] segs[k]).is_whitespace,
        r < segs.len() ==> !segs[r].is_whitespace,
    ensures
        ws_end(segs, i) == r,
    decreases r - i,
{
    if i < r {
        lemma_ws_end_at(segs, i + 1, r);
    }
}

/// The tokens of segments `i..` with whitespace glued on, for a lexicon
/// that knows nothing: each non-whitespace segment, looked up as itself and
/// reported with the whitespace before it (only where the text starts with
/// whitespace) and the whitespace after it.
pub open spec fn append_items(segs: Seq<Segment>, i: int) -> Seq<(Seq<char>, Seq<char>)>
    decreases segs.len() - i,
{
    if i < 0 || i >= segs.len() {
        Seq::empty()
    } else {
        let a = ws_end(segs, i);
        proof {
            lemma_ws_end(segs, i);
        }
        if a >= segs.len() {
            Seq::empty()
        } else {
            let b = ws_end(segs, a + 1);
            proof {
                lemma_ws_end(segs, a + 1);
            }
            seq![(segs[a].text@, concat(segs.subrange(i, a)) + segs[a].text@ + concat(segs.subrange(a + 1, b)))]
                + append_items(segs, b)
        }
    }
}

/// The readings are those of the glued tokens, one edge each from `node` on.
pub open spec fn append_readings(v: Seq<MorphInterpretation>, res: IdResolver, items: Seq<(Seq<char>, Seq<char>)>, node: int) -> bool {
    &&& v.len() == items.len()
    &&& forall|k: int| 0 <= k < v.len() ==> token_reading(#[trigger] v[k], res, items[k].0, items[k].1, node + k)
}

/// The analysis of a text split into `segs`, from node `start`, by a
/// lexicon that knows nothing: the readings `v` of its tokens, whitespace
/// dropped, kept as edges or glued to the tokens, and the next node `n`.
pub open spec fn plain_analysis(res: IdResolver, ws: WhitespaceHandling, segs: Seq<Segment>, start: int,
    v: Seq<MorphInterpretation>, n: int) -> bool {
    match ws {
        WhitespaceHandling::Skip => n == start + skip_tokens(segs, 0).len()
            && token_readings(v, res, skip_tokens(segs, 0), start),
        WhitespaceHandling::Keep => n == start + keep_items(segs, 0).len()
            && item_readings(v, res, keep_items(segs, 0), start),
        WhitespaceHandling::Append => n == start + append_items(segs, 0).len()
            && append_readings(v, res, append_items(segs, 0), start),
    }
}

/// What analysing `text` from node `start` gives with a lexicon that knows
/// nothing: the text split into longest whitespace runs, longest word runs
/// and single other characters, each token read as a number, a roman
/// numeral or an unknown word.
pub open spec fn plain_text_analysis(lex: AnyLexicon, config: Config, text: Seq<char>, start: int,
    r: Result<(Vec<MorphInterpretation>, i32)>) -> bool {
    r matches Ok((v, n)) && exists|segs: Seq<Segment>| #[trigger] tokenized(segs, text)
        && plain_analysis(lex.spec_resolver(), config.spec_whitespace(), segs, start, v@, n as int)
}

/// The readings are those of the tokens, one edge each from node `node` on.
pub open spec fn token_readings(v: Seq<MorphInterpretation>, res: IdResolver, toks: Seq<Seq<char>>, node: int) -> bool {
    &&& v.len() == toks.len()
    &&& forall|k: int| 0 <= k < v.len() ==> token_reading(#[trigger] v[k], res, toks[k], toks[k], node + k)
}

/// The token's characters `s..e`, not at its start, are a dictionary form
/// with an `aglt:` reading.
pub open spec fn aglt_suffix_at(lex: AnyLexicon, token: Seq<char>, s: int, e: int) -> bool {
    &&& 0 < s < e <= token.len()
    &&& lex.spec_lookup(token.subrange(s, e)) matches Some(es)
    &&& exists|i: int| 0 <= i < es.len() && #[trigger] tag_starts(lex.spec_resolver(), es[i].tag_id, "aglt:"@)
}

/// Some `aglt:` suffix of the token starts before `s`, or at `s` and ends
/// by `e`.
pub open spec fn aglt_before(lex: AnyLexicon, token: Seq<char>, s: int, e: int) -> bool {
    exists|s2: int, e2: int| #[trigger] aglt_suffix_at(lex, token, s2, e2) && (s2 < s || (s2 == s && e2 <= e))
}

/// Segments `start..end` are a word, a hyphen and a word, the first listed
/// with an `adja` tag and the second with a tag that starts with `adj:`.
pub open spec fn decomposable(lex: AnyLexicon, segments: Seq<Segment>, start: int, end: int) -> bool {
    &&& end - start == 3
    &&& segments[start + 1].text@ == "-"@
    &&& lex.spec_lookup(segments[start].text@) is Some
    &&& lex.spec_lookup(segments[start + 2].text@) is Some
    &&& some_tag_is(lex.spec_lookup(segments[start].text@).unwrap(), lex.spec_resolver(), "adja"@)
    &&& some_tag_starts(lex.spec_lookup(segments[start + 2].text@).unwrap(), lex.spec_resolver(), "adj:"@)
}

/// The nodes a token of `len` characters may take: one per character, and
/// at least one.
pub open spec fn node_span(len: int) -> int {
    if len < 1 { 1 } else { len }
}

/// Each value of a strictly increasing sequence is at least its index.
proof fn lemma_increasing_at_least_index(b: Seq<usize>, i: int)
    requires
        forall|x: int, y: int| 0 <= x < y < b.len() ==> b[x] < b[y],
        0 <= i < b.len(),
    ensures
        b[i] >= i,
    decreases i,
{
    if i > 0 {
        lemma_increasing_at_least_index(b, i - 1);
    }
}

/// A strictly increasing sequence of values at most `n` has at most `n + 1`
/// of them.
proof fn lemma_increasing_bounded_len(b: Seq<usize>, n: int)
    requires
        forall|x: int, y: int| 0 <= x < y < b.len() ==> b[x] < b[y],
        forall|x: usize| #[trigger] b.contains(x) ==> x <= n,
        0 <= n,
    ensures
        b.len() <= n + 1,
{
    if b.len() > 0 {
        let last = b.len() - 1;
        lemma_increasing_at_least_index(b, last);
        assert(b.contains(b[last]));
        assert(b[last] <= n);
    }
}

/// Whether the text starts with the prefix.
pub fn str_starts_with(text: &str, prefix: &str) -> (r: bool)
    ensures
        r == (prefix@.len() <= text@.len() && text@.take(prefix@.len() as int) == prefix@),
{
    let t = chars_of(text);
    let p = chars_of(prefix);
    if p.len() > t.len() {
        return false;
    }
    let mut i: usize = 0;
    while i < p.len()
        invariant
            t@ == text@,
            p@ == prefix@,
            p@.len() <= t@.len(),
            i <= p@.len(),
            forall|k: int| 0 <= k < i ==> t@[k] == p@[k],
        decreases p@.len() - i,
    {
        if t[i] != p[i] {
            assert(text@.take(prefix@.len() as int)[i as int] != prefix@[i as int]);
            return false;
        }
        i = i + 1;
    }
    assert(text@.take(prefix@.len() as int) =~= prefix@);
    true
}

impl Default for Engine {
    fn default() -> (e: Self)
        ensures
            e.wf(),
    {
        Engine::builder().build()
    }
}

/// An engine's analysis state across texts: the next free node when
/// numbering is continuous.
#[derive(Debug, Clone)]
pub struct Session {
    engine: Engine,
    next_node: i32,
    cache: WordTemplateCache,
}

impl Session {
    pub closed spec fn wf(&self) -> bool {
        self.engine.wf() && 0 <= self.next_node && self.cache.wf()
    }

    /// How often the session's word-template cache was used.
    pub fn cache_stats(&self) -> (r: crate::binary::cache::WordTemplateCacheStats)
        ensures
            r == self.spec_cache().stats_view(),
    {
        self.cache.stats()
    }

    /// The session's word-template cache.
    pub closed spec fn spec_cache(&self) -> WordTemplateCache {
        self.cache
    }

    pub closed spec fn spec_next_node(&self) -> i32 {
        self.next_node
    }

    pub closed spec fn spec_engine_config(&self) -> Config {
        self.engine.spec_config()
    }

    /// The lexicon the session's engine runs on.
    pub closed spec fn spec_session_lexicon(&self) -> AnyLexicon {
        self.engine.spec_lexicon()
    }

    /// The node the next text's readings start from.
    pub open spec fn first_node_of_next(&self) -> int {
        if self.spec_engine_config().spec_numbering() == NumberingScope::Continuous { self.spec_next_node() as int } else { 0 }
    }

    /// The readings of a text: nodes from 0 with separate numbering, from
    /// where the last text ended with continuous numbering.
    pub fn analyze(&mut self, text: &str) -> (r: Result<Vec<MorphInterpretation>>)
        requires
            old(self).wf(),
        ensures
            final(self).wf(),
            final(self).spec_engine_config() == old(self).spec_engine_config(),
            final(self).spec_session_lexicon() == old(self).spec_session_lexicon(),
            old(self).spec_engine_config().spec_numbering() == NumberingScope::Separate
                ==> final(self).spec_next_node() == old(self).spec_next_node()
                    && (r matches Ok(v) ==> nodes_within(v@, 0, i32::MAX as int)),
            old(self).spec_engine_config().spec_numbering() == NumberingScope::Continuous
                ==> (r matches Ok(v) ==> nodes_within(v@, old(self).spec_next_node() as int, final(self).spec_next_node() as int)
                    && old(self).spec_next_node() <= final(self).spec_next_node()),
            old(self).spec_session_lexicon().without_analyzer()
                && old(self).first_node_of_next() + 2 * text@.len() <= i32::MAX ==> r is Ok,
            all_morfeusz_ws(text@) && text@.len() > 0 && old(self).first_node_of_next() < i32::MAX ==> (r matches Ok(v)
                && if old(self).spec_engine_config().spec_whitespace() == WhitespaceHandling::Keep {
                v@.len() == 1 && whitespace_edge(v@[0], old(self).first_node_of_next(), text@)
                    && final(self).first_node_of_next() == (if old(self).spec_engine_config().spec_numbering()
                    == NumberingScope::Continuous { old(self).first_node_of_next() + 1 } else { 0 })
            } else {
                v@.len() == 0 && final(self).first_node_of_next() == old(self).first_node_of_next()
            }),
            knows_nothing(old(self).spec_session_lexicon()) && old(self).first_node_of_next() + text@.len() <= i32::MAX
                ==> (r matches Ok(v) && exists|segs: Seq<Segment>, n: int| tokenized(segs, text@)
                    && #[trigger] plain_analysis(old(self).spec_session_lexicon().spec_resolver(),
                        old(self).spec_engine_config().spec_whitespace(), segs, old(self).first_node_of_next(), v@, n)
                    && (old(self).spec_engine_config().spec_numbering() == NumberingScope::Continuous
                        ==> final(self).spec_next_node() == n)),
    {
        let start_node = match self.engine.config().numbering() {
            NumberingScope::Separate => 0,
            NumberingScope::Continuous => self.next_node,
        };
        let (result, next_node) = self.engine.analyze_from_node_cached(text, start_node, &mut self.cache)?;
        if self.engine.config().numbering() == NumberingScope::Continuous {
            self.next_node = next_node;
        }
        Ok(result)
    }

    /// Numbering starts again from 0.
    pub fn reset_numbering(&mut self)
        requires
            old(self).wf(),
        ensures
            final(self).wf(),
            final(self).spec_next_node() == 0,
            final(self).spec_engine_config() == old(self).spec_engine_config(),
            final(self).spec_session_lexicon() == old(self).spec_session_lexicon(),
    {
        self.next_node = 0;
    }
}

/// Builds an engine from a lexicon and a configuration.
#[derive(Debug, Clone)]
pub struct EngineBuilder {
    lexicon: AnyLexicon,
    config: Config,
}

impl EngineBuilder {
    pub closed spec fn wf(&self) -> bool {
        self.lexicon.lexicon_wf()
    }

    pub closed spec fn spec_config(&self) -> Config {
        self.config
    }

    pub closed spec fn spec_lexicon(&self) -> AnyLexicon {
        self.lexicon
    }

    /// An empty dictionary and the default configuration.
    pub fn default_builder() -> (b: Self)
        ensures
            b.wf(),
    {
        EngineBuilder { lexicon: AnyLexicon::Dictionary(Dictionary::empty()), config: Config::default() }
    }

    pub fn config(self, config: Config) -> (b: Self)
        ensures
            b.spec_config() == config,
            b.spec_lexicon() == self.spec_lexicon(),
            self.wf() ==> b.wf(),
    {
        EngineBuilder { lexicon: self.lexicon, config }
    }

    pub fn lexicon(self, lexicon: AnyLexicon) -> (b: Self)
        requires
            lexicon.lexicon_wf(),
        ensures
            b.wf(),
            b.spec_config() == self.spec_config(),
            b.spec_lexicon() == lexicon,
    {
        EngineBuilder { lexicon, config: self.config }
    }

    pub fn build(self) -> (e: Engine)
        ensures
            e.spec_config() == self.spec_config(),
            e.spec_lexicon() == self.spec_lexicon(),
            self.wf() ==> e.wf(),
    {
        Engine { lexicon: Arc::new(self.lexicon), config: self.config }
    }
}

} // verus!
