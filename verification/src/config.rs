//! Analysis options: token numbering scope, segmentation preset and the
//! whole configuration of an engine.
use vstd::prelude::*;
use vstd::std_specs::convert::FromSpecImpl;
use crate::error::{Error, Result};
use crate::text::{owned, str_eq};
use crate::types::{CaseHandling, Charset, TokenNumbering, WhitespaceHandling};

verus! {

/// Whether node numbers restart with each analysed text.
#[derive(Debug, Clone, Copy, PartialEq, Eq, Structural)]
pub enum NumberingScope {
    Separate,
    Continuous,
}

impl Default for NumberingScope {
    fn default() -> (r: Self)
        ensures
            r == NumberingScope::Separate,
    {
        NumberingScope::Separate
    }
}

pub open spec fn scope_of(value: TokenNumbering) -> NumberingScope {
    match value {
        TokenNumbering::Separate => NumberingScope::Separate,
        TokenNumbering::Continuous => NumberingScope::Continuous,
    }
}

pub open spec fn numbering_of(value: NumberingScope) -> TokenNumbering {
    match value {
        NumberingScope::Separate => TokenNumbering::Separate,
        NumberingScope::Continuous => TokenNumbering::Continuous,
    }
}

impl From<TokenNumbering> for NumberingScope {
    fn from(value: TokenNumbering) -> (r: Self) {
        match value {
            TokenNumbering::Separate => NumberingScope::Separate,
            TokenNumbering::Continuous => NumberingScope::Continuous,
        }
    }
}

impl FromSpecImpl<TokenNumbering> for NumberingScope {
    open spec fn obeys_from_spec() -> bool {
        true
    }

    open spec fn from_spec(value: TokenNumbering) -> Self {
        scope_of(value)
    }
}

impl From<NumberingScope> for TokenNumbering {
    fn from(value: NumberingScope) -> (r: Self) {
        match value {
            NumberingScope::Separate => TokenNumbering::Separate,
            NumberingScope::Continuous => TokenNumbering::Continuous,
        }
    }
}

impl FromSpecImpl<NumberingScope> for TokenNumbering {
    open spec fn obeys_from_spec() -> bool {
        true
    }

    open spec fn from_spec(value: NumberingScope) -> Self {
        numbering_of(value)
    }
}

/// The agglutination values that a preset may name.
pub open spec fn valid_aggl(s: Seq<char>) -> bool {
    s == "strict"@ || s == "permissive"@ || s == "isolated"@
}

/// The past-tense segmentation values that a preset may name.
pub open spec fn valid_praet(s: Seq<char>) -> bool {
    s == "split"@ || s == "composite"@
}

/// The optional view of an optional string.
pub open spec fn opt_view(o: Option<String>) -> Option<Seq<char>> {
    match o {
        Some(s) => Some(s@),
        None => None,
    }
}

/// The message for a preset with a value that is not allowed: about `aggl`
/// when that one is wrong, else about `praet`.
pub open spec fn preset_error(p: SegmentationPreset) -> Seq<char> {
    match p.spec_aggl() {
        Some(a) if !valid_aggl(a) => "Invalid agglutination option: "@ + a,
        _ => "Invalid praet option: "@ + p.spec_praet().unwrap(),
    }
}

/// Segmentation options (`aggl` and `praet`). A field left unset means the
/// dictionary's own default; setting it overrides that default.
#[derive(Debug, Clone, PartialEq, Eq)]
pub struct SegmentationPreset {
    aggl: Option<String>,
    praet: Option<String>,
}

impl Default for SegmentationPreset {
    fn default() -> (r: Self)
        ensures
            r.spec_aggl() is None,
            r.spec_praet() is None,
    {
        SegmentationPreset { aggl: None, praet: None }
    }
}

impl SegmentationPreset {
    pub closed spec fn spec_aggl(&self) -> Option<Seq<char>> {
        opt_view(self.aggl)
    }

    pub closed spec fn spec_praet(&self) -> Option<Seq<char>> {
        opt_view(self.praet)
    }

    /// Whether each option that is set has an allowed value.
    pub open spec fn valid(&self) -> bool {
        &&& (self.spec_aggl() matches Some(a) ==> valid_aggl(a))
        &&& (self.spec_praet() matches Some(p) ==> valid_praet(p))
    }

    /// A preset that sets both options; it fails with `InvalidArgument`
    /// exactly when either value is not allowed.
    pub fn new(aggl: &str, praet: &str) -> (r: Result<Self>)
        ensures
            r is Ok <==> valid_aggl(aggl@) && valid_praet(praet@),
            r matches Ok(p) ==> p.spec_aggl() == Some(aggl@) && p.spec_praet() == Some(praet@),
            r matches Err(e) ==> e matches Error::InvalidArgument(m)
                && m@ == (if !valid_aggl(aggl@) { "Invalid agglutination option: "@ + aggl@ } else { "Invalid praet option: "@ + praet@ }),
    {
        let preset = SegmentationPreset { aggl: Some(owned(aggl)), praet: Some(owned(praet)) };
        preset.validate()?;
        Ok(preset)
    }

    /// The agglutination option, or `None` for the dictionary's default.
    pub fn aggl(&self) -> (r: Option<&str>)
        ensures
            r matches Some(s) ==> self.spec_aggl() == Some(s@),
            r is None <==> self.spec_aggl() is None,
    {
        match &self.aggl {
            Some(s) => Some(s.as_str()),
            None => None,
        }
    }

    /// The past-tense option, or `None` for the dictionary's default.
    pub fn praet(&self) -> (r: Option<&str>)
        ensures
            r matches Some(s) ==> self.spec_praet() == Some(s@),
            r is None <==> self.spec_praet() is None,
    {
        match &self.praet {
            Some(s) => Some(s.as_str()),
            None => None,
        }
    }

    /// The preset with `aggl` set; it fails with `InvalidArgument` exactly
    /// when the resulting preset holds a value that is not allowed.
    pub fn with_aggl(self, aggl: &str) -> (r: Result<Self>)
        ensures
            r is Ok <==> valid_aggl(aggl@) && (self.spec_praet() matches Some(p) ==> valid_praet(p)),
            r matches Ok(p) ==> p.spec_aggl() == Some(aggl@) && p.spec_praet() == self.spec_praet(),
            r matches Err(e) ==> e matches Error::InvalidArgument(m)
                && m@ == (if !valid_aggl(aggl@) { "Invalid agglutination option: "@ + aggl@ } else { "Invalid praet option: "@ + self.spec_praet().unwrap() }),
    {
        let preset = SegmentationPreset { aggl: Some(owned(aggl)), praet: self.praet };
        preset.validate()?;
        Ok(preset)
    }

    /// The preset with `praet` set; it fails with `InvalidArgument` exactly
    /// when the resulting preset holds a value that is not allowed.
    pub fn with_praet(self, praet: &str) -> (r: Result<Self>)
        ensures
            r is Ok <==> valid_praet(praet@) && (self.spec_aggl() matches Some(a) ==> valid_aggl(a)),
            r matches Ok(p) ==> p.spec_praet() == Some(praet@) && p.spec_aggl() == self.spec_aggl(),
            r matches Err(e) ==> e matches Error::InvalidArgument(m)
                && m@ == (if self.spec_aggl() is Some && !valid_aggl(self.spec_aggl().unwrap()) {
                    "Invalid agglutination option: "@ + self.spec_aggl().unwrap()
                } else {
                    "Invalid praet option: "@ + praet@
                }),
    {
        let preset = SegmentationPreset { aggl: self.aggl, praet: Some(owned(praet)) };
        preset.validate()?;
        Ok(preset)
    }

    fn validate(&self) -> (r: Result<()>)
        ensures
            r is Ok <==> self.valid(),
            r matches Err(e) ==> e matches Error::InvalidArgument(m) && m@ == preset_error(*self),
    {
        if let Some(aggl) = &self.aggl {
            if !(str_eq(aggl.as_str(), "strict") || str_eq(aggl.as_str(), "permissive")
                || str_eq(aggl.as_str(), "isolated")) {
                return Err(Error::invalid_argument_about("Invalid agglutination option: ", aggl.as_str()));
            }
        }
        if let Some(praet) = &self.praet {
            if !(str_eq(praet.as_str(), "split") || str_eq(praet.as_str(), "composite")) {
                return Err(Error::invalid_argument_about("Invalid praet option: ", praet.as_str()));
            }
        }
        Ok(())
    }
}

impl SegmentationPreset {
    /// A preset with the same options.
    pub fn copy(&self) -> (r: Self)
        ensures
            r.spec_aggl() == self.spec_aggl(),
            r.spec_praet() == self.spec_praet(),
    {
        let aggl = match &self.aggl {
            Some(a) => Some(owned(a.as_str())),
            None => None,
        };
        let praet = match &self.praet {
            Some(p) => Some(owned(p.as_str())),
            None => None,
        };
        SegmentationPreset { aggl, praet }
    }
}

/// Two configurations with the same settings.
pub open spec fn same_config(a: Config, b: Config) -> bool {
    &&& a.spec_charset() == b.spec_charset()
    &&& a.spec_case_handling() == b.spec_case_handling()
    &&& a.spec_numbering() == b.spec_numbering()
    &&& a.spec_whitespace() == b.spec_whitespace()
    &&& a.spec_segmentation().spec_aggl() == b.spec_segmentation().spec_aggl()
    &&& a.spec_segmentation().spec_praet() == b.spec_segmentation().spec_praet()
    &&& a.spec_debug() == b.spec_debug()
}

/// Everything that shapes an analysis.
#[derive(Debug, Clone, PartialEq, Eq)]
pub struct Config {
    charset: Charset,
    case_handling: CaseHandling,
    numbering: NumberingScope,
    whitespace: WhitespaceHandling,
    segmentation: SegmentationPreset,
    debug: bool,
}

impl Default for Config {
    fn default() -> (r: Self)
        ensures
            r.spec_charset() == Charset::Utf8,
            r.spec_case_handling() == CaseHandling::ConditionallyCaseSensitive,
            r.spec_numbering() == NumberingScope::Separate,
            r.spec_whitespace() == WhitespaceHandling::Skip,
            r.spec_segmentation().spec_aggl() is None,
            r.spec_segmentation().spec_praet() is None,
            !r.spec_debug(),
    {
        Config {
            charset: Charset::Utf8,
            case_handling: CaseHandling::ConditionallyCaseSensitive,
            numbering: NumberingScope::Separate,
            whitespace: WhitespaceHandling::Skip,
            segmentation: SegmentationPreset::default(),
            debug: false,
        }
    }
}

impl Config {
    pub closed spec fn spec_charset(&self) -> Charset {
        self.charset
    }

    pub closed spec fn spec_case_handling(&self) -> CaseHandling {
        self.case_handling
    }

    pub closed spec fn spec_numbering(&self) -> NumberingScope {
        self.numbering
    }

    pub closed spec fn spec_whitespace(&self) -> WhitespaceHandling {
        self.whitespace
    }

    pub closed spec fn spec_segmentation(&self) -> SegmentationPreset {
        self.segmentation
    }

    pub closed spec fn spec_debug(&self) -> bool {
        self.debug
    }

    /// A configuration with the same settings.
    pub fn copy(&self) -> (r: Self)
        ensures
            same_config(r, *self),
    {
        Config {
            charset: self.charset,
            case_handling: self.case_handling,
            numbering: self.numbering,
            whitespace: self.whitespace,
            segmentation: self.segmentation.copy(),
            debug: self.debug,
        }
    }

    pub fn charset(&self) -> (c: Charset)
        ensures
            c == self.spec_charset(),
    {
        self.charset
    }

    pub fn case_handling(&self) -> (c: CaseHandling)
        ensures
            c == self.spec_case_handling(),
    {
        self.case_handling
    }

    pub fn numbering(&self) -> (n: NumberingScope)
        ensures
            n == self.spec_numbering(),
    {
        self.numbering
    }

    pub fn whitespace(&self) -> (w: WhitespaceHandling)
        ensures
            w == self.spec_whitespace(),
    {
        self.whitespace
    }

    pub fn segmentation(&self) -> (s: &SegmentationPreset)
        ensures
            *s == self.spec_segmentation(),
    {
        &self.segmentation
    }

    pub fn debug(&self) -> (d: bool)
        ensures
            d == self.spec_debug(),
    {
        self.debug
    }

    pub fn with_charset(self, charset: Charset) -> (r: Self)
        ensures
            r.spec_charset() == charset,
            r.spec_case_handling() == self.spec_case_handling(),
            r.spec_numbering() == self.spec_numbering(),
            r.spec_whitespace() == self.spec_whitespace(),
            r.spec_segmentation() == self.spec_segmentation(),
            r.spec_debug() == self.spec_debug(),
    {
        Config { charset, ..self }
    }

    pub fn with_case_handling(self, case_handling: CaseHandling) -> (r: Self)
        ensures
            r.spec_case_handling() == case_handling,
            r.spec_charset() == self.spec_charset(),
            r.spec_numbering() == self.spec_numbering(),
            r.spec_whitespace() == self.spec_whitespace(),
            r.spec_segmentation() == self.spec_segmentation(),
            r.spec_debug() == self.spec_debug(),
    {
        Config { case_handling, ..self }
    }

    pub fn with_numbering(self, numbering: NumberingScope) -> (r: Self)
        ensures
            r.spec_numbering() == numbering,
            r.spec_charset() == self.spec_charset(),
            r.spec_case_handling() == self.spec_case_handling(),
            r.spec_whitespace() == self.spec_whitespace(),
            r.spec_segmentation() == self.spec_segmentation(),
            r.spec_debug() == self.spec_debug(),
    {
        Config { numbering, ..self }
    }

    pub fn with_whitespace(self, whitespace: WhitespaceHandling) -> (r: Self)
        ensures
            r.spec_whitespace() == whitespace,
            r.spec_charset() == self.spec_charset(),
            r.spec_case_handling() == self.spec_case_handling(),
            r.spec_numbering() == self.spec_numbering(),
            r.spec_segmentation() == self.spec_segmentation(),
            r.spec_debug() == self.spec_debug(),
    {
        Config { whitespace, ..self }
    }

    pub fn with_segmentation(self, segmentation: SegmentationPreset) -> (r: Self)
        ensures
            r.spec_segmentation() == segmentation,
            r.spec_charset() == self.spec_charset(),
            r.spec_case_handling() == self.spec_case_handling(),
            r.spec_numbering() == self.spec_numbering(),
            r.spec_whitespace() == self.spec_whitespace(),
            r.spec_debug() == self.spec_debug(),
    {
        Config { segmentation, ..self }
    }

    pub fn with_debug(self, debug: bool) -> (r: Self)
        ensures
            r.spec_debug() == debug,
            r.spec_charset() == self.spec_charset(),
            r.spec_case_handling() == self.spec_case_handling(),
            r.spec_numbering() == self.spec_numbering(),
            r.spec_whitespace() == self.spec_whitespace(),
            r.spec_segmentation() == self.spec_segmentation(),
    {
        Config { debug, ..self }
    }
}

impl Config {
    /// The default configuration with the given segmentation options.
    pub closed spec fn spec_with_segmentation(segmentation: SegmentationPreset) -> Config {
        Config {
            charset: Charset::Utf8,
            case_handling: CaseHandling::ConditionallyCaseSensitive,
            numbering: NumberingScope::Separate,
            whitespace: WhitespaceHandling::Skip,
            segmentation,
            debug: false,
        }
    }

    /// What `spec_with_segmentation` holds.
    pub proof fn lemma_with_segmentation(segmentation: SegmentationPreset)
        ensures
            ({
                let c = Config::spec_with_segmentation(segmentation);
                &&& c.spec_charset() == Charset::Utf8
                &&& c.spec_case_handling() == CaseHandling::ConditionallyCaseSensitive
                &&& c.spec_numbering() == NumberingScope::Separate
                &&& c.spec_whitespace() == WhitespaceHandling::Skip
                &&& c.spec_segmentation() == segmentation
                &&& !c.spec_debug()
            }),
    {
    }
}

impl From<SegmentationPreset> for Config {
    /// The default configuration with the given segmentation options.
    fn from(segmentation: SegmentationPreset) -> (r: Self) {
        Config::default().with_segmentation(segmentation)
    }
}

impl FromSpecImpl<SegmentationPreset> for Config {
    open spec fn obeys_from_spec() -> bool {
        true
    }

    open spec fn from_spec(segmentation: SegmentationPreset) -> Self {
        Config::spec_with_segmentation(segmentation)
    }
}

} // verus!
