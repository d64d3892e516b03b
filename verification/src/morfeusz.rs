//! The library's front end: an analyser and generator with settable options,
//! in the shape of the classic Morfeusz interface.
use vstd::prelude::*;
use crate::config::{same_config, Config, NumberingScope, numbering_of, scope_of};
use crate::dictionary::Dictionary;
use crate::engine::{AnyLexicon, Engine, Session};
use crate::error::{Error, Result};
use crate::id_resolver::IdResolver;
use crate::ports::{Lexicon, nodes_within};
use crate::types::{CaseHandling, Charset, MorfeuszUsage, MorphInterpretation, TokenNumbering, WhitespaceHandling};

verus! {

/// The version of the library.
pub const VERSION: &'static str = "1.99.15";

/// The copyright notice of the library.
pub const COPYRIGHT: &'static str = "Copyright © 2014–2021 by Institute of Computer Science, Polish Academy of
Science

All rights reserved.

Redistribution and use in source and binary forms, with or without
modification, are permitted provided that the following conditions are
met:

Redistributions of source code must retain the above copyright notice,
this list of conditions and the following disclaimer.
Redistributions in binary form must reproduce the above copyright
notice, this list of conditions and the following disclaimer in the
documentation and/or other materials provided with the distribution.

THIS SOFTWARE IS PROVIDED BY COPYRIGHT HOLDERS “AS IS” AND ANY EXPRESS
OR IMPLIED WARRANTIES, INCLUDING, BUT NOT LIMITED TO, THE IMPLIED
WARRANTIES OF MERCHANTABILITY AND FITNESS FOR A PARTICULAR PURPOSE ARE
DISCLAIMED. IN NO EVENT SHALL COPYRIGHT HOLDERS OR CONTRIBUTORS BE
LIABLE FOR ANY DIRECT, INDIRECT, INCIDENTAL, SPECIAL, EXEMPLARY, OR
CONSEQUENTIAL DAMAGES (INCLUDING, BUT NOT LIMITED TO, PROCUREMENT OF
SUBSTITUTE GOODS OR SERVICES; LOSS OF USE, DATA, OR PROFITS; OR BUSINESS
INTERRUPTION) HOWEVER CAUSED AND ON ANY THEORY OF LIABILITY, WHETHER IN
CONTRACT, STRICT LIABILITY, OR TORT (INCLUDING NEGLIGENCE OR OTHERWISE)
ARISING IN ANY WAY OUT OF THE USE OF THIS SOFTWARE, EVEN IF ADVISED OF
THE POSSIBILITY OF SUCH DAMAGE.
";

/// The message when analysis is asked of a generate-only instance.
pub open spec fn cannot_analyse_message() -> Seq<char> {
    "Cannot analyse with given Morfeusz instance."@
}

/// The message when generation is asked of an analyse-only instance.
pub open spec fn cannot_generate_message() -> Seq<char> {
    "Cannot generate with given Morfeusz instance."@
}

/// The usage allows analysis.
pub open spec fn can_analyse(usage: MorfeuszUsage) -> bool {
    usage != MorfeuszUsage::GenerateOnly
}

/// The usage allows generation.
pub open spec fn can_generate(usage: MorfeuszUsage) -> bool {
    usage != MorfeuszUsage::AnalyseOnly
}

/// The default configuration's settings.
pub open spec fn is_default_config(c: Config) -> bool {
    &&& c.spec_charset() == Charset::Utf8
    &&& c.spec_case_handling() == CaseHandling::ConditionallyCaseSensitive
    &&& c.spec_numbering() == NumberingScope::Separate
    &&& c.spec_whitespace() == WhitespaceHandling::Skip
    &&& c.spec_segmentation().spec_aggl() is None
    &&& c.spec_segmentation().spec_praet() is None
    &&& !c.spec_debug()
}

/// The node a text's analysis starts from: where the last one ended with
/// continuous numbering, else 0.
pub open spec fn numbering_start(config: Config, next: int) -> int {
    if config.spec_numbering() == NumberingScope::Continuous { next } else { 0 }
}

/// An analyser and generator over one lexicon, with its options and the
/// node numbering state of consecutive analyses.
#[derive(Debug, Clone)]
pub struct Morfeusz {
    engine: Engine,
    session: Session,
    usage: MorfeuszUsage,
}

impl Default for Morfeusz {
    fn default() -> (m: Self)
        ensures
            m.wf(),
            m.spec_usage() == MorfeuszUsage::BothAnalyseAndGenerate,
            is_default_config(m.spec_config()),
    {
        Morfeusz::new()
    }
}

impl Morfeusz {
    /// The engine, the session and the usage fit together: the session
    /// analyses with the engine's settings.
    pub closed spec fn wf(&self) -> bool {
        &&& self.engine.wf()
        &&& self.session.wf()
        &&& same_config(self.session.spec_engine_config(), self.engine.spec_config())
        &&& self.session.spec_session_lexicon() == self.engine.spec_lexicon()
    }

    pub closed spec fn spec_config(&self) -> Config {
        self.engine.spec_config()
    }

    pub closed spec fn spec_lexicon(&self) -> AnyLexicon {
        self.engine.spec_lexicon()
    }

    pub closed spec fn spec_usage(&self) -> MorfeuszUsage {
        self.usage
    }

    /// The node the next analysis starts from under continuous numbering.
    pub closed spec fn spec_next_node(&self) -> i32 {
        self.session.spec_next_node()
    }

    /// An instance over an empty dictionary that may both analyse and
    /// generate.
    pub fn new() -> (m: Self)
        ensures
            m.wf(),
            m.spec_usage() == MorfeuszUsage::BothAnalyseAndGenerate,
            is_default_config(m.spec_config()),
            m.spec_next_node() == 0,
            m.spec_lexicon().spec_id() == Seq::<char>::empty(),
            m.spec_lexicon().spec_copyright() == Seq::<char>::empty(),
    {
        Morfeusz::with_dictionary(Dictionary::empty(), MorfeuszUsage::BothAnalyseAndGenerate)
    }

    /// An instance over a dictionary, with the default options.
    pub fn with_dictionary(dictionary: Dictionary, usage: MorfeuszUsage) -> (m: Self)
        requires
            dictionary.wf(),
        ensures
            m.wf(),
            m.spec_lexicon() == AnyLexicon::Dictionary(dictionary),
            m.spec_usage() == usage,
            is_default_config(m.spec_config()),
            m.spec_next_node() == 0,
    {
        Morfeusz::with_lexicon(AnyLexicon::Dictionary(dictionary), usage)
    }

    /// An instance over a lexicon, with the default options.
    pub fn with_lexicon(lexicon: AnyLexicon, usage: MorfeuszUsage) -> (m: Self)
        requires
            lexicon.lexicon_wf(),
        ensures
            m.wf(),
            m.spec_lexicon() == lexicon,
            m.spec_usage() == usage,
            is_default_config(m.spec_config()),
            m.spec_next_node() == 0,
    {
        let engine = Engine::builder().config(Config::default()).lexicon(lexicon).build();
        let session = engine.session();
        Morfeusz { engine, session, usage }
    }

    /// The version of the library.
    pub fn version() -> (r: &'static str)
        ensures
            r@ == VERSION@,
    {
        VERSION
    }

    /// The name of the dictionary loaded when none is named.
    pub fn default_dict_name() -> (r: &'static str)
        ensures
            r@ == "sgjp"@,
    {
        "sgjp"
    }

    /// The copyright notice of the library.
    pub fn copyright() -> (r: &'static str)
        ensures
            r@ == COPYRIGHT@,
    {
        COPYRIGHT
    }

    /// The id of the loaded dictionary.
    pub fn dict_id(&self) -> (r: &str)
        ensures
            r@ == self.spec_lexicon().spec_id(),
    {
        self.engine.lexicon_id()
    }

    /// The copyright notice of the loaded dictionary.
    pub fn dict_copyright(&self) -> (r: &str)
        ensures
            r@ == self.spec_lexicon().spec_copyright(),
    {
        self.engine.lexicon_copyright()
    }

    /// The tagset of the loaded dictionary.
    pub fn id_resolver(&self) -> (r: &IdResolver)
        requires
            self.wf(),
        ensures
            r.wf(),
            *r == self.spec_lexicon().spec_resolver(),
    {
        self.engine.resolver()
    }

    pub fn usage(&self) -> (u: MorfeuszUsage)
        ensures
            u == self.spec_usage(),
    {
        self.usage
    }

    /// The readings of a text. Nodes start from 0 with separate numbering,
    /// and from where the previous text ended with continuous numbering.
    /// `Unsupported` on a generate-only instance.
    pub fn analyse(&mut self, text: &str) -> (r: Result<Vec<MorphInterpretation>>)
        requires
            old(self).wf(),
        ensures
            final(self).wf(),
            final(self).spec_config() == old(self).spec_config(),
            final(self).spec_lexicon() == old(self).spec_lexicon(),
            final(self).spec_usage() == old(self).spec_usage(),
            !can_analyse(old(self).spec_usage()) ==> (r matches Err(e) && e matches Error::Unsupported(m)
                && m@ == cannot_analyse_message()) && final(self).spec_next_node() == old(self).spec_next_node(),
            can_analyse(old(self).spec_usage()) && old(self).spec_config().spec_numbering() == NumberingScope::Separate
                ==> final(self).spec_next_node() == old(self).spec_next_node()
                    && (r matches Ok(v) ==> nodes_within(v@, 0, i32::MAX as int)),
            can_analyse(old(self).spec_usage()) && old(self).spec_config().spec_numbering() == NumberingScope::Continuous
                ==> (r matches Ok(v) ==> nodes_within(v@, old(self).spec_next_node() as int, final(self).spec_next_node() as int)
                    && old(self).spec_next_node() <= final(self).spec_next_node()),
            can_analyse(old(self).spec_usage()) && crate::engine::all_morfeusz_ws(text@) && text@.len() > 0
                && old(self).spec_next_node() < i32::MAX ==> (r matches Ok(v) && if old(self).spec_config().spec_whitespace()
                == WhitespaceHandling::Keep {
                v@.len() == 1 && crate::engine::whitespace_edge(v@[0], if old(self).spec_config().spec_numbering()
                    == NumberingScope::Continuous { old(self).spec_next_node() as int } else { 0 }, text@)
            } else {
                v@.len() == 0
            }),
            can_analyse(old(self).spec_usage()) && crate::engine::knows_nothing(old(self).spec_lexicon())
                && numbering_start(old(self).spec_config(), old(self).spec_next_node() as int) + text@.len() <= i32::MAX
                ==> (r matches Ok(v)
                && exists|segs: Seq<crate::engine::Segment>, n: int| crate::engine::tokenized(segs, text@)
                    && #[trigger] crate::engine::plain_analysis(old(self).spec_lexicon().spec_resolver(),
                        old(self).spec_config().spec_whitespace(), segs, numbering_start(old(self).spec_config(), old(self).spec_next_node() as int), v@, n)
                    && (old(self).spec_config().spec_numbering() == NumberingScope::Continuous
                        ==> final(self).spec_next_node() == n)),
    {
        self.ensure_can_analyse()?;
        let ghost before = self.session;
        let r = self.session.analyze(text);
        proof {
            if crate::engine::knows_nothing(before.spec_session_lexicon())
                && before.first_node_of_next() + text@.len() <= i32::MAX {
                if r is Ok {
                    let v = r->Ok_0;
                    let (segs, n) = choose|segs: Seq<crate::engine::Segment>, n: int| crate::engine::tokenized(segs, text@)
                        && #[trigger] crate::engine::plain_analysis(before.spec_session_lexicon().spec_resolver(),
                            before.spec_engine_config().spec_whitespace(), segs, before.first_node_of_next(), v@, n)
                        && (before.spec_engine_config().spec_numbering() == NumberingScope::Continuous
                            ==> self.session.spec_next_node() == n);
                    assert(crate::engine::plain_analysis(old(self).spec_lexicon().spec_resolver(),
                        old(self).spec_config().spec_whitespace(), segs,
                        numbering_start(old(self).spec_config(), old(self).spec_next_node() as int), v@, n));
                }
            }
        }
        r
    }

    /// The readings of a text, to be walked one by one.
    pub fn analyse_iter(&mut self, text: &str) -> (r: Result<ResultsIterator>)
        requires
            old(self).wf(),
        ensures
            final(self).wf(),
            final(self).spec_config() == old(self).spec_config(),
            final(self).spec_lexicon() == old(self).spec_lexicon(),
            final(self).spec_usage() == old(self).spec_usage(),
            !can_analyse(old(self).spec_usage()) ==> (r matches Err(e) && e matches Error::Unsupported(m)
                && m@ == cannot_analyse_message()),
            r matches Ok(it) ==> it.wf(),
    {
        let results = self.analyse(text)?;
        Ok(ResultsIterator::new(results))
    }

    /// The readings of a text with nodes numbered from `start_node`, and
    /// the next free node; the instance keeps no numbering state for it.
    pub fn analyse_from(&self, text: &str, start_node: i32) -> (r: Result<(Vec<MorphInterpretation>, i32)>)
        requires
            self.wf(),
        ensures
            !can_analyse(self.spec_usage()) ==> (r matches Err(e) && e matches Error::Unsupported(m)
                && m@ == cannot_analyse_message()),
            r matches Ok((v, next)) ==> start_node <= next && nodes_within(v@, start_node as int, next as int),
            can_analyse(self.spec_usage()) && crate::engine::all_morfeusz_ws(text@) && text@.len() > 0 && start_node < i32::MAX
                ==> crate::engine::whitespace_text_result(r, text@, start_node as int, self.spec_config().spec_whitespace()
                == WhitespaceHandling::Keep),
            can_analyse(self.spec_usage()) && crate::engine::knows_nothing(self.spec_lexicon()) && 0 <= start_node
                && start_node + text@.len() <= i32::MAX ==> crate::engine::plain_text_analysis(self.spec_lexicon(),
                self.spec_config(), text@, start_node as int, r),
    {
        self.ensure_can_analyse()?;
        self.engine.analyze_from_node(text, start_node)
    }

    /// An independent instance over the same lexicon, with the same
    /// options and usage and its own numbering from 0.
    pub fn fork(&self) -> (m: Self)
        requires
            self.wf(),
        ensures
            m.wf(),
            same_config(m.spec_config(), self.spec_config()),
            m.spec_lexicon() == self.spec_lexicon(),
            m.spec_usage() == self.spec_usage(),
            m.spec_next_node() == 0,
    {
        let engine = self.engine.fork();
        let session = engine.session();
        Morfeusz { engine, session, usage: self.usage }
    }

    /// The forms of a lemma. `Unsupported` on an analyse-only instance,
    /// `InvalidArgument` when the lemma holds whitespace.
    pub fn generate(&self, lemma: &str) -> (r: Result<Vec<MorphInterpretation>>)
        requires
            self.wf(),
        ensures
            !can_generate(self.spec_usage()) ==> (r matches Err(e) && e matches Error::Unsupported(m)
                && m@ == cannot_generate_message()),
            can_generate(self.spec_usage()) && crate::engine::has_morfeusz_ws(lemma@)
                ==> (r matches Err(e) && e is InvalidArgument),
            r matches Ok(v) ==> v@.len() > 0,
            can_generate(self.spec_usage()) && !crate::engine::has_morfeusz_ws(lemma@)
                ==> (self.spec_lexicon() matches AnyLexicon::Dictionary(d) ==> (r matches Ok(v)
                    && crate::engine::generated_by(d, lemma@, v@))),
            can_generate(self.spec_usage()) && !crate::engine::has_morfeusz_ws(lemma@)
                ==> (crate::engine::generator_of(self.spec_lexicon()) matches Some(g) ==> (g.no_rule_transitions(
                    self.spec_config().spec_segmentation()) ==> (r matches Ok(v)
                    ==> crate::engine::generated_by_generator(g, lemma@, v@)))),
            can_generate(self.spec_usage()) && !crate::engine::has_morfeusz_ws(lemma@)
                && !(self.spec_lexicon() is Dictionary) && crate::engine::generator_of(self.spec_lexicon()) is None
                ==> (r matches Ok(v) && v@.len() == 1 && crate::engine::ign_of_lemma(v@[0], lemma@)),
    {
        self.ensure_can_generate()?;
        self.engine.generate(lemma)
    }

    /// The forms of a lemma with the given tag. `Unsupported` on an
    /// analyse-only instance, `InvalidArgument` for a tag id the tagset
    /// lacks.
    pub fn generate_by_tag_id(&self, lemma: &str, tag_id: i32) -> (r: Result<Vec<MorphInterpretation>>)
        requires
            self.wf(),
        ensures
            !can_generate(self.spec_usage()) ==> (r matches Err(e) && e matches Error::Unsupported(m)
                && m@ == cannot_generate_message()),
            can_generate(self.spec_usage()) && !self.spec_lexicon().spec_resolver().has_tag(tag_id as int)
                ==> (r matches Err(e) && e matches Error::InvalidArgument(m)
                    && m@ == "Invalid tag id: "@ + crate::text::signed_decimal(tag_id as int)),
            r matches Ok(v) ==> forall|i: int| 0 <= i < v@.len() ==> (#[trigger] v@[i]).tag_id == tag_id,
            can_generate(self.spec_usage()) && self.spec_lexicon().spec_resolver().has_tag(tag_id as int)
                && !crate::engine::has_morfeusz_ws(lemma@) ==> (self.spec_lexicon() matches AnyLexicon::Dictionary(d)
                ==> (r matches Ok(v) && exists|all: Seq<MorphInterpretation>| #[trigger] crate::engine::generated_by(d, lemma@, all)
                    && v@ == all.filter(|m: MorphInterpretation| m.tag_id == tag_id))),
            can_generate(self.spec_usage()) && self.spec_lexicon().spec_resolver().has_tag(tag_id as int)
                && !crate::engine::has_morfeusz_ws(lemma@) ==> (crate::engine::generator_of(self.spec_lexicon()) matches Some(g)
                ==> (g.no_rule_transitions(self.spec_config().spec_segmentation()) ==> (r matches Ok(v)
                    ==> exists|all: Seq<MorphInterpretation>| #[trigger] crate::engine::generated_by_generator(g, lemma@, all)
                        && v@ == all.filter(|m: MorphInterpretation| m.tag_id == tag_id)))),
    {
        self.ensure_can_generate()?;
        self.engine.generate_by_tag_id(lemma, tag_id)
    }

    /// The instance with a new configuration; numbering starts again.
    fn apply_config(&mut self, config: Config)
        requires
            old(self).wf(),
        ensures
            final(self).wf(),
            final(self).spec_config() == config,
            final(self).spec_lexicon() == old(self).spec_lexicon(),
            final(self).spec_usage() == old(self).spec_usage(),
            final(self).spec_next_node() == 0,
    {
        self.engine = self.engine.with_config(config);
        self.session = self.engine.session();
    }

    pub fn set_charset(&mut self, charset: Charset)
        requires
            old(self).wf(),
        ensures
            final(self).wf(),
            final(self).spec_config().spec_charset() == charset,
            final(self).spec_config().spec_case_handling() == old(self).spec_config().spec_case_handling(),
            final(self).spec_config().spec_numbering() == old(self).spec_config().spec_numbering(),
            final(self).spec_config().spec_whitespace() == old(self).spec_config().spec_whitespace(),
            final(self).spec_config().spec_segmentation().spec_aggl() == old(self).spec_config().spec_segmentation().spec_aggl(),
            final(self).spec_config().spec_segmentation().spec_praet() == old(self).spec_config().spec_segmentation().spec_praet(),
            final(self).spec_config().spec_debug() == old(self).spec_config().spec_debug(),
            final(self).spec_lexicon() == old(self).spec_lexicon(),
            final(self).spec_usage() == old(self).spec_usage(),
            final(self).spec_next_node() == 0,
    {
        let config = self.engine.config().copy().with_charset(charset);
        self.apply_config(config);
    }

    pub fn charset(&self) -> (c: Charset)
        ensures
            c == self.spec_config().spec_charset(),
    {
        self.engine.config().charset()
    }

    /// Sets the `aggl` option; `InvalidArgument` when the value is not one
    /// of the options, or the dictionary has no such segmentation. The
    /// instance is unchanged on failure.
    pub fn set_aggl(&mut self, aggl: &str) -> (r: Result<()>)
        requires
            old(self).wf(),
        ensures
            final(self).wf(),
            final(self).spec_lexicon() == old(self).spec_lexicon(),
            final(self).spec_usage() == old(self).spec_usage(),
            !crate::config::valid_aggl(aggl@) ==> (r matches Err(e) && e matches Error::InvalidArgument(m)
                && m@ == "Invalid agglutination option: "@ + aggl@),
            r matches Err(e) ==> e is InvalidArgument && *final(self) == *old(self),
            r is Ok ==> old(self).spec_lexicon().accepts_view(final(self).spec_config().spec_segmentation(), "aggl"@),
            crate::config::valid_aggl(aggl@) && (old(self).spec_config().spec_segmentation().spec_praet() matches Some(p)
                ==> crate::config::valid_praet(p)) && r is Err ==> exists|p: crate::config::SegmentationPreset|
                p.spec_aggl() == Some(aggl@) && p.spec_praet() == old(self).spec_config().spec_segmentation().spec_praet()
                && !#[trigger] old(self).spec_lexicon().accepts_view(p, "aggl"@),
            r is Ok ==> final(self).spec_config().spec_segmentation().spec_aggl() == Some(aggl@)
                && final(self).spec_config().spec_segmentation().spec_praet() == old(self).spec_config().spec_segmentation().spec_praet()
                && final(self).spec_config().spec_charset() == old(self).spec_config().spec_charset()
                && final(self).spec_config().spec_case_handling() == old(self).spec_config().spec_case_handling()
                && final(self).spec_config().spec_numbering() == old(self).spec_config().spec_numbering()
                && final(self).spec_config().spec_whitespace() == old(self).spec_config().spec_whitespace()
                && final(self).spec_config().spec_debug() == old(self).spec_config().spec_debug()
                && final(self).spec_next_node() == 0,
    {
        let segmentation = self.engine.config().segmentation().copy().with_aggl(aggl)?;
        let checked = self.engine.validate_segmentation(&segmentation, "aggl", aggl);
        proof {
            if checked is Err {
                assert(segmentation.spec_aggl() == Some(aggl@)
                    && segmentation.spec_praet() == old(self).spec_config().spec_segmentation().spec_praet()
                    && !self.spec_lexicon().accepts_view(segmentation, "aggl"@));
            }
        }
        checked?;
        let config = self.engine.config().copy().with_segmentation(segmentation);
        self.apply_config(config);
        Ok(())
    }

    /// The `aggl` option in force: the one set, else the dictionary's own,
    /// else `permissive`.
    pub fn aggl(&self) -> (r: &str)
        requires
            self.wf(),
        ensures
            r@ == match self.spec_config().spec_segmentation().spec_aggl() {
                Some(a) => a,
                None => match self.spec_lexicon().default_option_of("aggl"@) {
                    Some(d) => d,
                    None => "permissive"@,
                },
            },
    {
        match self.engine.config().segmentation().aggl() {
            Some(a) => a,
            None => match self.engine.default_aggl() {
                Some(a) => a,
                None => "permissive",
            },
        }
    }

    /// Sets the `praet` option; `InvalidArgument` when the value is not one
    /// of the options, or the dictionary has no such segmentation. The
    /// instance is unchanged on failure.
    pub fn set_praet(&mut self, praet: &str) -> (r: Result<()>)
        requires
            old(self).wf(),
        ensures
            final(self).wf(),
            final(self).spec_lexicon() == old(self).spec_lexicon(),
            final(self).spec_usage() == old(self).spec_usage(),
            !crate::config::valid_praet(praet@) && (old(self).spec_config().spec_segmentation().spec_aggl() matches Some(a)
                ==> crate::config::valid_aggl(a)) ==> (r matches Err(e) && e matches Error::InvalidArgument(m)
                && m@ == "Invalid praet option: "@ + praet@),
            r matches Err(e) ==> e is InvalidArgument && *final(self) == *old(self),
            r is Ok ==> old(self).spec_lexicon().accepts_view(final(self).spec_config().spec_segmentation(), "praet"@),
            crate::config::valid_praet(praet@) && (old(self).spec_config().spec_segmentation().spec_aggl() matches Some(a)
                ==> crate::config::valid_aggl(a)) && r is Err ==> exists|p: crate::config::SegmentationPreset|
                p.spec_praet() == Some(praet@) && p.spec_aggl() == old(self).spec_config().spec_segmentation().spec_aggl()
                && !#[trigger] old(self).spec_lexicon().accepts_view(p, "praet"@),
            r is Ok ==> final(self).spec_config().spec_segmentation().spec_praet() == Some(praet@)
                && final(self).spec_config().spec_segmentation().spec_aggl() == old(self).spec_config().spec_segmentation().spec_aggl()
                && final(self).spec_config().spec_charset() == old(self).spec_config().spec_charset()
                && final(self).spec_config().spec_case_handling() == old(self).spec_config().spec_case_handling()
                && final(self).spec_config().spec_numbering() == old(self).spec_config().spec_numbering()
                && final(self).spec_config().spec_whitespace() == old(self).spec_config().spec_whitespace()
                && final(self).spec_config().spec_debug() == old(self).spec_config().spec_debug()
                && final(self).spec_next_node() == 0,
    {
        let segmentation = self.engine.config().segmentation().copy().with_praet(praet)?;
        let checked = self.engine.validate_segmentation(&segmentation, "praet", praet);
        proof {
            if checked is Err {
                assert(segmentation.spec_praet() == Some(praet@)
                    && segmentation.spec_aggl() == old(self).spec_config().spec_segmentation().spec_aggl()
                    && !self.spec_lexicon().accepts_view(segmentation, "praet"@));
            }
        }
        checked?;
        let config = self.engine.config().copy().with_segmentation(segmentation);
        self.apply_config(config);
        Ok(())
    }

    /// The `praet` option in force: the one set, else the dictionary's own,
    /// else `split`.
    pub fn praet(&self) -> (r: &str)
        requires
            self.wf(),
        ensures
            r@ == match self.spec_config().spec_segmentation().spec_praet() {
                Some(p) => p,
                None => match self.spec_lexicon().default_option_of("praet"@) {
                    Some(d) => d,
                    None => "split"@,
                },
            },
    {
        match self.engine.config().segmentation().praet() {
            Some(p) => p,
            None => match self.engine.default_praet() {
                Some(p) => p,
                None => "split",
            },
        }
    }

    pub fn set_case_handling(&mut self, case_handling: CaseHandling)
        requires
            old(self).wf(),
        ensures
            final(self).wf(),
            final(self).spec_config().spec_case_handling() == case_handling,
            final(self).spec_config().spec_charset() == old(self).spec_config().spec_charset(),
            final(self).spec_config().spec_numbering() == old(self).spec_config().spec_numbering(),
            final(self).spec_config().spec_whitespace() == old(self).spec_config().spec_whitespace(),
            final(self).spec_config().spec_segmentation().spec_aggl() == old(self).spec_config().spec_segmentation().spec_aggl(),
            final(self).spec_config().spec_segmentation().spec_praet() == old(self).spec_config().spec_segmentation().spec_praet(),
            final(self).spec_config().spec_debug() == old(self).spec_config().spec_debug(),
            final(self).spec_lexicon() == old(self).spec_lexicon(),
            final(self).spec_usage() == old(self).spec_usage(),
            final(self).spec_next_node() == 0,
    {
        let config = self.engine.config().copy().with_case_handling(case_handling);
        self.apply_config(config);
    }

    pub fn case_handling(&self) -> (c: CaseHandling)
        ensures
            c == self.spec_config().spec_case_handling(),
    {
        self.engine.config().case_handling()
    }

    /// Sets the token numbering; numbering starts again from 0.
    pub fn set_token_numbering(&mut self, token_numbering: TokenNumbering)
        requires
            old(self).wf(),
        ensures
            final(self).wf(),
            final(self).spec_config().spec_numbering() == scope_of(token_numbering),
            final(self).spec_config().spec_charset() == old(self).spec_config().spec_charset(),
            final(self).spec_config().spec_case_handling() == old(self).spec_config().spec_case_handling(),
            final(self).spec_config().spec_whitespace() == old(self).spec_config().spec_whitespace(),
            final(self).spec_config().spec_segmentation().spec_aggl() == old(self).spec_config().spec_segmentation().spec_aggl(),
            final(self).spec_config().spec_segmentation().spec_praet() == old(self).spec_config().spec_segmentation().spec_praet(),
            final(self).spec_config().spec_debug() == old(self).spec_config().spec_debug(),
            final(self).spec_lexicon() == old(self).spec_lexicon(),
            final(self).spec_usage() == old(self).spec_usage(),
            final(self).spec_next_node() == 0,
    {
        let config = self.engine.config().copy().with_numbering(NumberingScope::from(token_numbering));
        self.apply_config(config);
        self.session.reset_numbering();
    }

    pub fn token_numbering(&self) -> (t: TokenNumbering)
        ensures
            t == numbering_of(self.spec_config().spec_numbering()),
    {
        TokenNumbering::from(self.engine.config().numbering())
    }

    pub fn set_whitespace_handling(&mut self, whitespace_handling: WhitespaceHandling)
        requires
            old(self).wf(),
        ensures
            final(self).wf(),
            final(self).spec_config().spec_whitespace() == whitespace_handling,
            final(self).spec_config().spec_charset() == old(self).spec_config().spec_charset(),
            final(self).spec_config().spec_case_handling() == old(self).spec_config().spec_case_handling(),
            final(self).spec_config().spec_numbering() == old(self).spec_config().spec_numbering(),
            final(self).spec_config().spec_segmentation().spec_aggl() == old(self).spec_config().spec_segmentation().spec_aggl(),
            final(self).spec_config().spec_segmentation().spec_praet() == old(self).spec_config().spec_segmentation().spec_praet(),
            final(self).spec_config().spec_debug() == old(self).spec_config().spec_debug(),
            final(self).spec_lexicon() == old(self).spec_lexicon(),
            final(self).spec_usage() == old(self).spec_usage(),
            final(self).spec_next_node() == 0,
    {
        let config = self.engine.config().copy().with_whitespace(whitespace_handling);
        self.apply_config(config);
    }

    pub fn whitespace_handling(&self) -> (w: WhitespaceHandling)
        ensures
            w == self.spec_config().spec_whitespace(),
    {
        self.engine.config().whitespace()
    }

    pub fn set_debug(&mut self, debug: bool)
        requires
            old(self).wf(),
        ensures
            final(self).wf(),
            final(self).spec_config().spec_debug() == debug,
            final(self).spec_config().spec_charset() == old(self).spec_config().spec_charset(),
            final(self).spec_config().spec_case_handling() == old(self).spec_config().spec_case_handling(),
            final(self).spec_config().spec_numbering() == old(self).spec_config().spec_numbering(),
            final(self).spec_config().spec_whitespace() == old(self).spec_config().spec_whitespace(),
            final(self).spec_config().spec_segmentation().spec_aggl() == old(self).spec_config().spec_segmentation().spec_aggl(),
            final(self).spec_config().spec_segmentation().spec_praet() == old(self).spec_config().spec_segmentation().spec_praet(),
            final(self).spec_lexicon() == old(self).spec_lexicon(),
            final(self).spec_usage() == old(self).spec_usage(),
            final(self).spec_next_node() == 0,
    {
        let config = self.engine.config().copy().with_debug(debug);
        self.apply_config(config);
    }

    pub fn debug(&self) -> (d: bool)
        ensures
            d == self.spec_config().spec_debug(),
    {
        self.engine.config().debug()
    }

    /// Replaces the lexicon with a dictionary, keeping every option.
    pub fn set_dictionary(&mut self, dictionary: Dictionary)
        requires
            old(self).wf(),
            dictionary.wf(),
        ensures
            final(self).wf(),
            final(self).spec_lexicon() == AnyLexicon::Dictionary(dictionary),
            same_config(final(self).spec_config(), old(self).spec_config()),
            final(self).spec_usage() == old(self).spec_usage(),
            final(self).spec_next_node() == 0,
    {
        let config = self.engine.config().copy();
        self.engine = Engine::builder().lexicon(AnyLexicon::Dictionary(dictionary)).config(config).build();
        self.session = self.engine.session();
    }

    /// Takes the lexicon and usage of a freshly loaded instance, keeping
    /// this instance's charset, case handling, numbering, whitespace
    /// handling and debug flag; the segmentation options go back to the new
    /// dictionary's defaults.
    pub fn replace_with_loaded_dictionary(&mut self, loaded: Morfeusz)
        requires
            old(self).wf(),
            loaded.wf(),
        ensures
            final(self).wf(),
            final(self).spec_lexicon() == loaded.spec_lexicon(),
            final(self).spec_usage() == loaded.spec_usage(),
            final(self).spec_config().spec_charset() == old(self).spec_config().spec_charset(),
            final(self).spec_config().spec_case_handling() == old(self).spec_config().spec_case_handling(),
            final(self).spec_config().spec_numbering() == old(self).spec_config().spec_numbering(),
            final(self).spec_config().spec_whitespace() == old(self).spec_config().spec_whitespace(),
            final(self).spec_config().spec_debug() == old(self).spec_config().spec_debug(),
            final(self).spec_config().spec_segmentation().spec_aggl() is None,
            final(self).spec_config().spec_segmentation().spec_praet() is None,
            final(self).spec_next_node() == 0,
    {
        let config = self.config_for_dictionary_switch();
        self.usage = loaded.usage;
        self.engine = loaded.engine.with_config(config);
        self.session = self.engine.session();
    }

    /// The values the `aggl` option takes with this dictionary.
    pub fn available_aggl_options(&self) -> (r: Vec<String>)
        requires
            self.wf(),
        ensures
            self.spec_lexicon().aggl_listed(crate::ordered::str_views(r@)),
    {
        self.engine.available_aggl_options()
    }

    /// The values the `praet` option takes with this dictionary.
    pub fn available_praet_options(&self) -> (r: Vec<String>)
        requires
            self.wf(),
        ensures
            self.spec_lexicon().praet_listed(crate::ordered::str_views(r@)),
    {
        self.engine.available_praet_options()
    }

    /// The default configuration with this instance's charset, case
    /// handling, numbering, whitespace handling and debug flag.
    fn config_for_dictionary_switch(&self) -> (c: Config)
        ensures
            c.spec_charset() == self.spec_config().spec_charset(),
            c.spec_case_handling() == self.spec_config().spec_case_handling(),
            c.spec_numbering() == self.spec_config().spec_numbering(),
            c.spec_whitespace() == self.spec_config().spec_whitespace(),
            c.spec_debug() == self.spec_config().spec_debug(),
            c.spec_segmentation().spec_aggl() is None,
            c.spec_segmentation().spec_praet() is None,
    {
        let current = self.engine.config();
        Config::default()
            .with_charset(current.charset())
            .with_case_handling(current.case_handling())
            .with_numbering(current.numbering())
            .with_whitespace(current.whitespace())
            .with_debug(current.debug())
    }

    fn ensure_can_analyse(&self) -> (r: Result<()>)
        ensures
            r is Ok <==> can_analyse(self.spec_usage()),
            r matches Err(e) ==> e matches Error::Unsupported(m) && m@ == cannot_analyse_message(),
    {
        match self.usage {
            MorfeuszUsage::AnalyseOnly | MorfeuszUsage::BothAnalyseAndGenerate => Ok(()),
            MorfeuszUsage::GenerateOnly => Err(Error::Unsupported(
                crate::text::owned("Cannot analyse with given Morfeusz instance."),
            )),
        }
    }

    fn ensure_can_generate(&self) -> (r: Result<()>)
        ensures
            r is Ok <==> can_generate(self.spec_usage()),
            r matches Err(e) ==> e matches Error::Unsupported(m) && m@ == cannot_generate_message(),
    {
        match self.usage {
            MorfeuszUsage::GenerateOnly | MorfeuszUsage::BothAnalyseAndGenerate => Ok(()),
            MorfeuszUsage::AnalyseOnly => Err(Error::Unsupported(
                crate::text::owned("Cannot generate with given Morfeusz instance."),
            )),
        }
    }
}

/// The message when a results iterator has nothing left.
pub open spec fn no_more_message() -> Seq<char> {
    "No more interpretations available to ResultsIterator"@
}

/// The readings of an analysis, handed out one at a time.
#[derive(Debug, Clone)]
pub struct ResultsIterator {
    /// The readings not handed out yet, the next one last.
    pending: Vec<MorphInterpretation>,
}

impl ResultsIterator {
    /// The readings not handed out yet, in order.
    pub closed spec fn remaining(&self) -> Seq<MorphInterpretation> {
        self.pending@.reverse()
    }

    pub open spec fn wf(&self) -> bool {
        true
    }

    pub fn new(items: Vec<MorphInterpretation>) -> (it: Self)
        ensures
            it.remaining() == items@,
    {
        let ghost all = items@;
        let mut rest = items;
        let mut pending: Vec<MorphInterpretation> = Vec::new();
        while rest.len() > 0
            invariant
                rest@ + pending@.reverse() == all,
            decreases rest@.len(),
        {
            let ghost before = rest@;
            let x = rest.pop().unwrap();
            proof {
                assert(before == rest@.push(x));
            }
            pending.push(x);
            proof {
                assert(pending@.reverse() =~= seq![x] + (pending@.drop_last()).reverse());
                assert(rest@ + pending@.reverse() =~= before + (pending@.drop_last()).reverse());
            }
        }
        assert(pending@.reverse() =~= all);
        ResultsIterator { pending }
    }

    /// Whether a reading is left.
    pub fn has_next(&mut self) -> (r: bool)
        ensures
            *final(self) == *old(self),
            r == (old(self).remaining().len() > 0),
    {
        self.pending.len() > 0
    }

    /// The next reading, left in place.
    pub fn peek(&mut self) -> (r: Option<&MorphInterpretation>)
        ensures
            *final(self) == *old(self),
            r is Some <==> old(self).remaining().len() > 0,
            r matches Some(m) ==> *m == old(self).remaining()[0],
    {
        let n = self.pending.len();
        if n == 0 {
            None
        } else {
            Some(&self.pending[n - 1])
        }
    }

    /// The next reading, left in place; `OutOfRange` when none is left.
    pub fn peek_result(&mut self) -> (r: Result<&MorphInterpretation>)
        ensures
            *final(self) == *old(self),
            r is Ok <==> old(self).remaining().len() > 0,
            r matches Ok(m) ==> *m == old(self).remaining()[0],
            r matches Err(e) ==> e matches Error::OutOfRange(msg) && msg@ == no_more_message(),
    {
        let n = self.pending.len();
        if n == 0 {
            Err(Error::OutOfRange(crate::text::owned("No more interpretations available to ResultsIterator")))
        } else {
            Ok(&self.pending[n - 1])
        }
    }

    /// Hands out the next reading.
    pub fn next(&mut self) -> (r: Option<MorphInterpretation>)
        ensures
            old(self).remaining().len() == 0 ==> r is None && final(self).remaining() == old(self).remaining(),
            old(self).remaining().len() > 0 ==> r == Some(old(self).remaining()[0])
                && final(self).remaining() == old(self).remaining().drop_first(),
    {
        let ghost before = self.pending@;
        let r = self.pending.pop();
        proof {
            if before.len() > 0 {
                assert(before.reverse() =~= seq![before.last()] + self.pending@.reverse());
                assert(before.reverse().drop_first() =~= self.pending@.reverse());
            }
        }
        r
    }

    /// Hands out the next reading; `OutOfRange` when none is left.
    pub fn next_result(&mut self) -> (r: Result<MorphInterpretation>)
        ensures
            old(self).remaining().len() == 0 ==> final(self).remaining() == old(self).remaining()
                && (r matches Err(e) && e matches Error::OutOfRange(msg) && msg@ == no_more_message()),
            old(self).remaining().len() > 0 ==> r == Ok::<MorphInterpretation, Error>(old(self).remaining()[0])
                && final(self).remaining() == old(self).remaining().drop_first(),
    {
        match self.next() {
            Some(m) => Ok(m),
            None => Err(Error::OutOfRange(crate::text::owned("No more interpretations available to ResultsIterator"))),
        }
    }
}

} // verus!
