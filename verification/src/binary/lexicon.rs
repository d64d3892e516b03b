//! An analyzer and a generator dictionary used together as one lexicon.
use vstd::prelude::*;
use crate::config::SegmentationPreset;
use crate::dictionary::{DictionaryEntry, EntryView};
use crate::error::{Error, Result};
use crate::id_resolver::IdResolver;
use crate::ports::{str_option, Lexicon};
use crate::ordered::str_views;
use super::segmentation::sorted_listing;
use crate::text::owned;
use crate::types::{CaseHandling, MorphInterpretation};
use super::analyzer::{edges_between, BinaryAnalyzerLexicon};
use super::cache::WordTemplateCache;
use super::generator::BinaryGeneratorLexicon;

verus! {

/// An analyzer, a generator, or both; the id, copyright and tagset come
/// from the analyzer when there is one.
#[derive(Debug, Clone)]
pub struct BinaryLexicon {
    analyzer: Option<BinaryAnalyzerLexicon>,
    generator: Option<BinaryGeneratorLexicon>,
    id: String,
    copyright: String,
}

impl BinaryLexicon {
    pub closed spec fn wf(&self) -> bool {
        &&& (self.analyzer matches Some(a) ==> a.wf())
        &&& (self.generator matches Some(g) ==> g.wf())
        &&& (self.analyzer is Some || self.generator is Some)
    }

    /// The tagset of the analyzer, else of the generator.
    pub closed spec fn resolver_view(&self) -> IdResolver {
        match self.analyzer {
            Some(a) => a.resolver_view(),
            None => match self.generator {
                Some(g) => g.resolver_view(),
                None => IdResolver::spec_blank(),
            },
        }
    }

    /// The values the rule variants of the analyzer, else of the generator,
    /// give an option.
    pub closed spec fn option_values_view(&self, option: Seq<char>) -> Set<Seq<char>> {
        match self.analyzer {
            Some(a) => a.option_values_view(option),
            None => match self.generator {
                Some(g) => g.option_values_view(option),
                None => Set::empty(),
            },
        }
    }

    /// The default value the analyzer's, else the generator's, segmentation
    /// section gives an option.
    pub closed spec fn default_option_view(&self, option: Seq<char>) -> Option<Seq<char>> {
        match self.analyzer {
            Some(a) => a.default_option_view(option),
            None => match self.generator {
                Some(g) => g.default_option_view(option),
                None => None,
            },
        }
    }

    /// Whether both the analyzer and the generator, where there are, accept
    /// the preset after `option` was set.
    pub closed spec fn accepts_view(&self, preset: SegmentationPreset, option: Seq<char>) -> bool {
        &&& (self.analyzer matches Some(a) ==> a.accepts_view(preset, option))
        &&& (self.generator matches Some(g) ==> g.accepts_view(preset, option))
    }

    /// The readings of one word and the next free node, through the
    /// word-template cache where there is an analyzer.
    pub fn analyze_native_word_cached(&self, cache: &mut WordTemplateCache, word: &str, start_node: i32, case_handling: CaseHandling,
        segmentation: &SegmentationPreset) -> (r: Result<(Vec<MorphInterpretation>, i32)>)
        requires
            self.wf(),
            0 <= start_node,
            old(cache).wf(),
        ensures
            final(cache).wf(),
            r matches Ok((v, next)) ==> start_node <= next && edges_between(v@, 0, start_node as int, next as int),
            !self.has_analyzer() ==> (r matches Ok((v, next)) && v@.len() == 0 && next == start_node),
    {
        match &self.analyzer {
            Some(a) => a.process_one_word_cached(cache, word, start_node, case_handling, segmentation),
            None => Ok((Vec::new(), start_node)),
        }
    }

    pub closed spec fn has_analyzer(&self) -> bool {
        self.analyzer is Some
    }

    pub closed spec fn has_generator(&self) -> bool {
        self.generator is Some
    }

    /// The generator part, where there is one.
    pub closed spec fn generator_view(&self) -> Option<BinaryGeneratorLexicon> {
        self.generator
    }

    pub closed spec fn spec_id(&self) -> Seq<char> {
        self.id@
    }

    pub closed spec fn spec_copyright(&self) -> Seq<char> {
        self.copyright@
    }

    /// The lexicon of the given dictionaries; `InvalidArgument` when there
    /// is neither.
    pub fn new(analyzer: Option<BinaryAnalyzerLexicon>, generator: Option<BinaryGeneratorLexicon>) -> (r: Result<Self>)
        requires
            analyzer matches Some(a) ==> a.wf(),
            generator matches Some(g) ==> g.wf(),
        ensures
            r is Ok <==> (analyzer is Some || generator is Some),
            r matches Ok(l) ==> l.wf() && l.has_analyzer() == analyzer is Some && l.has_generator() == generator is Some,
            r matches Ok(l) ==> match analyzer {
                Some(a) => l.spec_id() == a.id_view() && l.spec_copyright() == a.copyright_view()
                    && l.resolver_view() == a.resolver_view(),
                None => generator matches Some(g) && l.spec_id() == g.id_view() && l.spec_copyright() == g.copyright_view()
                    && l.resolver_view() == g.resolver_view(),
            },
            r matches Err(e) ==> e is InvalidArgument,
    {
        let (id, copyright) = match &analyzer {
            Some(a) => (owned(a.id()), owned(a.copyright())),
            None => match &generator {
                Some(g) => (owned(g.id()), owned(g.copyright())),
                None => {
                    return Err(Error::invalid_argument("binary lexicon requires analyzer or generator dictionary"));
                },
            },
        };
        Ok(BinaryLexicon { analyzer, generator, id, copyright })
    }
}

impl Lexicon for BinaryLexicon {
    open spec fn lexicon_wf(&self) -> bool {
        self.wf()
    }

    open spec fn spec_resolver(&self) -> IdResolver {
        self.resolver_view()
    }

    open spec fn spec_id(&self) -> Seq<char> {
        self.spec_id()
    }

    open spec fn spec_copyright(&self) -> Seq<char> {
        self.spec_copyright()
    }

    fn id(&self) -> &str {
        self.id.as_str()
    }

    fn copyright(&self) -> &str {
        self.copyright.as_str()
    }

    /// The tagset of the analyzer, else of the generator.
    fn resolver(&self) -> (r: &IdResolver) {
        match &self.analyzer {
            Some(a) => a.resolver(),
            None => {
                let g = self.generator.as_ref().unwrap();
                g.resolver()
            },
        }
    }

    open spec fn spec_lookup(&self, orth: Seq<char>) -> Option<Seq<EntryView>> {
        None
    }

    open spec fn spec_synthesize(&self, lemma: Seq<char>) -> Option<Seq<EntryView>> {
        None
    }

    fn lookup(&self, orth: &str) -> Option<&[DictionaryEntry]> {
        None
    }

    fn synthesize(&self, lemma: &str) -> Option<&[DictionaryEntry]> {
        None
    }

    fn default_aggl(&self) -> (r: Option<&str>)
        ensures
            str_option(r) == self.default_option_view("aggl"@),
    {
        match &self.analyzer {
            Some(a) => a.default_aggl(),
            None => match &self.generator {
                Some(g) => g.default_aggl(),
                None => None,
            },
        }
    }

    fn default_praet(&self) -> (r: Option<&str>)
        ensures
            str_option(r) == self.default_option_view("praet"@),
    {
        match &self.analyzer {
            Some(a) => a.default_praet(),
            None => match &self.generator {
                Some(g) => g.default_praet(),
                None => None,
            },
        }
    }

    fn available_aggl_options(&self) -> (r: Vec<String>)
        ensures
            sorted_listing(str_views(r@), self.option_values_view("aggl"@)),
    {
        match &self.analyzer {
            Some(a) => a.available_aggl_options(),
            None => match &self.generator {
                Some(g) => g.available_aggl_options(),
                None => Vec::new(),
            },
        }
    }

    fn available_praet_options(&self) -> (r: Vec<String>)
        ensures
            sorted_listing(str_views(r@), self.option_values_view("praet"@)),
    {
        match &self.analyzer {
            Some(a) => a.available_praet_options(),
            None => match &self.generator {
                Some(g) => g.available_praet_options(),
                None => Vec::new(),
            },
        }
    }

    /// Checks the option against the analyzer and then the generator.
    fn validate_segmentation(&self, segmentation: &SegmentationPreset, option: &str, value: &str) -> (r: Result<()>)
        ensures
            r is Ok <==> self.accepts_view(*segmentation, option@),
    {
        match &self.analyzer {
            Some(a) => {
                let checked = Lexicon::validate_segmentation(a, segmentation, option, value);
                if checked.is_err() {
                    return checked;
                }
            },
            None => {},
        }
        match &self.generator {
            Some(g) => {
                let checked = g.validate_segmentation(segmentation, option, value);
                if checked.is_err() {
                    return checked;
                }
            },
            None => {},
        }
        Ok(())
    }

    fn is_native_analyzer(&self) -> (r: bool)
        ensures
            r == self.has_analyzer(),
    {
        self.analyzer.is_some()
    }

    /// Without an analyzer a word has no readings.
    fn analyze_native_word(&self, word: &str, start_node: i32, case_handling: CaseHandling, segmentation: &SegmentationPreset) -> (r: Result<(Vec<MorphInterpretation>, i32)>)
        ensures
            !self.has_analyzer() ==> (r matches Ok((v, next)) && v@.len() == 0 && next == start_node),
    {
        match &self.analyzer {
            Some(a) => a.analyze_native_word(word, start_node, case_handling, segmentation),
            None => Ok((Vec::new(), start_node)),
        }
    }

    fn analyze_word_interpretations(&self, orth: &str, start_node: i32, case_handling: CaseHandling, segmentation: &SegmentationPreset) -> (r: Result<Option<(Vec<MorphInterpretation>, i32)>>)
        ensures
            !self.has_analyzer() ==> r matches Ok(None),
    {
        match &self.analyzer {
            Some(a) => a.analyze_word_interpretations(orth, start_node, case_handling, segmentation),
            None => Ok(None),
        }
    }

    fn lookup_interpretations(&self, orth: &str, start_node: i32, end_node: i32, result_orth: &str, case_handling: CaseHandling, segmentation: &SegmentationPreset) -> (r: Result<Option<Vec<MorphInterpretation>>>)
        ensures
            !self.has_analyzer() ==> r matches Ok(None),
    {
        match &self.analyzer {
            Some(a) => a.lookup_interpretations(orth, start_node, end_node, result_orth, case_handling, segmentation),
            None => Ok(None),
        }
    }

    /// Without a generator a lemma has no forms.
    fn synthesize_interpretations(&self, lemma: &str, segmentation: &SegmentationPreset) -> (r: Result<Vec<MorphInterpretation>>)
        ensures
            !self.has_generator() ==> (r matches Ok(v) && v@.len() == 0),
            self.generator_view() is None ==> (r matches Ok(v) && v@.len() == 0),
            self.generator_view() matches Some(g) ==> (g.no_rule_transitions(*segmentation)
                ==> (r matches Ok(v) ==> crate::binary::generator::generator_forms(g, lemma@, v@))),
    {
        match &self.generator {
            Some(g) => g.synthesize_interpretations(lemma, segmentation),
            None => Ok(Vec::new()),
        }
    }
}

} // verus!
