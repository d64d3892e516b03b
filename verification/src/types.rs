use vstd::prelude::*;
use crate::id_resolver::{IdResolver, LabelSet};

verus! {

/// Text encodings understood by the legacy interface.
#[derive(Debug, Clone, Copy, PartialEq, Eq, Structural)]
pub enum Charset {
    Utf8,
    Iso8859_2,
    Cp1250,
    Cp852,
}

pub const UTF8: Charset = Charset::Utf8;
pub const ISO8859_2: Charset = Charset::Iso8859_2;
pub const CP1250: Charset = Charset::Cp1250;
pub const CP852: Charset = Charset::Cp852;

impl Charset {
    /// The numeric value of the option in the legacy C/C++ interface.
    pub fn code(self) -> (c: i32)
        ensures
            c == match self {
                Charset::Utf8 => 11i32,
                Charset::Iso8859_2 => 12,
                Charset::Cp1250 => 13,
                Charset::Cp852 => 14,
            },
    {
        match self {
            Charset::Utf8 => 11,
            Charset::Iso8859_2 => 12,
            Charset::Cp1250 => 13,
            Charset::Cp852 => 14,
        }
    }
}

impl Default for Charset {
    fn default() -> (r: Self)
        ensures
            r == Charset::Utf8,
    {
        Charset::Utf8
    }
}

/// How the analyzer treats the letter case of the input.
#[derive(Debug, Clone, Copy, PartialEq, Eq, Structural)]
pub enum CaseHandling {
    ConditionallyCaseSensitive,
    StrictlyCaseSensitive,
    IgnoreCase,
}

pub const CONDITIONALLY_CASE_SENSITIVE: CaseHandling = CaseHandling::ConditionallyCaseSensitive;
pub const STRICTLY_CASE_SENSITIVE: CaseHandling = CaseHandling::StrictlyCaseSensitive;
pub const IGNORE_CASE: CaseHandling = CaseHandling::IgnoreCase;

impl CaseHandling {
    /// The numeric value of the option in the legacy C/C++ interface.
    pub fn code(self) -> (c: i32)
        ensures
            c == match self {
                CaseHandling::ConditionallyCaseSensitive => 100i32,
                CaseHandling::StrictlyCaseSensitive => 101,
                CaseHandling::IgnoreCase => 102,
            },
    {
        match self {
            CaseHandling::ConditionallyCaseSensitive => 100,
            CaseHandling::StrictlyCaseSensitive => 101,
            CaseHandling::IgnoreCase => 102,
        }
    }
}

impl Default for CaseHandling {
    fn default() -> (r: Self)
        ensures
            r == CaseHandling::ConditionallyCaseSensitive,
    {
        CaseHandling::ConditionallyCaseSensitive
    }
}

/// Whether node numbers restart for every analysed text or continue.
#[derive(Debug, Clone, Copy, PartialEq, Eq, Structural)]
pub enum TokenNumbering {
    Separate,
    Continuous,
}

pub const SEPARATE_NUMBERING: TokenNumbering = TokenNumbering::Separate;
pub const CONTINUOUS_NUMBERING: TokenNumbering = TokenNumbering::Continuous;

impl TokenNumbering {
    /// The numeric value of the option in the legacy C/C++ interface.
    pub fn code(self) -> (c: i32)
        ensures
            c == match self {
                TokenNumbering::Separate => 201i32,
                TokenNumbering::Continuous => 202,
            },
    {
        match self {
            TokenNumbering::Separate => 201,
            TokenNumbering::Continuous => 202,
        }
    }
}

impl Default for TokenNumbering {
    fn default() -> (r: Self)
        ensures
            r == TokenNumbering::Separate,
    {
        TokenNumbering::Separate
    }
}

/// What the analyzer does with whitespace between words.
#[derive(Debug, Clone, Copy, PartialEq, Eq, Structural)]
pub enum WhitespaceHandling {
    Skip,
    Append,
    Keep,
}

pub const SKIP_WHITESPACES: WhitespaceHandling = WhitespaceHandling::Skip;
pub const APPEND_WHITESPACES: WhitespaceHandling = WhitespaceHandling::Append;
pub const KEEP_WHITESPACES: WhitespaceHandling = WhitespaceHandling::Keep;

impl WhitespaceHandling {
    /// The numeric value of the option in the legacy C/C++ interface.
    pub fn code(self) -> (c: i32)
        ensures
            c == match self {
                WhitespaceHandling::Skip => 301i32,
                WhitespaceHandling::Append => 302,
                WhitespaceHandling::Keep => 303,
            },
    {
        match self {
            WhitespaceHandling::Skip => 301,
            WhitespaceHandling::Append => 302,
            WhitespaceHandling::Keep => 303,
        }
    }
}

impl Default for WhitespaceHandling {
    fn default() -> (r: Self)
        ensures
            r == WhitespaceHandling::Skip,
    {
        WhitespaceHandling::Skip
    }
}

/// Which directions (analysis, generation) an instance supports.
#[derive(Debug, Clone, Copy, PartialEq, Eq, Structural)]
pub enum MorfeuszUsage {
    AnalyseOnly,
    GenerateOnly,
    BothAnalyseAndGenerate,
}

pub const ANALYSE_ONLY: MorfeuszUsage = MorfeuszUsage::AnalyseOnly;
pub const GENERATE_ONLY: MorfeuszUsage = MorfeuszUsage::GenerateOnly;
pub const BOTH_ANALYSE_AND_GENERATE: MorfeuszUsage = MorfeuszUsage::BothAnalyseAndGenerate;

impl MorfeuszUsage {
    /// The numeric value of the option in the legacy C/C++ interface.
    pub fn code(self) -> (c: i32)
        ensures
            c == match self {
                MorfeuszUsage::AnalyseOnly => 401i32,
                MorfeuszUsage::GenerateOnly => 402,
                MorfeuszUsage::BothAnalyseAndGenerate => 403,
            },
    {
        match self {
            MorfeuszUsage::AnalyseOnly => 401,
            MorfeuszUsage::GenerateOnly => 402,
            MorfeuszUsage::BothAnalyseAndGenerate => 403,
        }
    }
}

impl Default for MorfeuszUsage {
    fn default() -> (r: Self)
        ensures
            r == MorfeuszUsage::BothAnalyseAndGenerate,
    {
        MorfeuszUsage::BothAnalyseAndGenerate
    }
}

/// One edge of the analysis graph: a segment of the text between two nodes
/// with one reading of it.
#[derive(Debug, Clone, PartialEq, Eq)]
pub struct MorphInterpretation {
    pub start_node: i32,
    pub end_node: i32,
    pub orth: String,
    pub lemma: String,
    pub tag_id: i32,
    pub name_id: i32,
    pub labels_id: i32,
}

/// Reading `a` is reading `b` moved by `d` nodes: same text, lemma and ids.
pub open spec fn moved_reading(a: MorphInterpretation, b: MorphInterpretation, d: int) -> bool {
    &&& a.start_node == b.start_node + d
    &&& a.end_node == b.end_node + d
    &&& a.orth@ == b.orth@
    &&& a.lemma@ == b.lemma@
    &&& a.tag_id == b.tag_id
    &&& a.name_id == b.name_id
    &&& a.labels_id == b.labels_id
}

/// Whether every reading still has node numbers after a move by `d`.
pub fn readings_movable(v: &Vec<MorphInterpretation>, d: i32) -> (r: bool)
    ensures
        r == forall|i: int| 0 <= i < v@.len() ==> i32::MIN <= (#[trigger] v@[i]).start_node + d <= i32::MAX
            && i32::MIN <= v@[i].end_node + d <= i32::MAX,
{
    let mut i: usize = 0;
    while i < v.len()
        invariant
            i <= v@.len(),
            forall|k: int| 0 <= k < i ==> i32::MIN <= (#[trigger] v@[k]).start_node + d <= i32::MAX
                && i32::MIN <= v@[k].end_node + d <= i32::MAX,
        decreases v@.len() - i,
    {
        let s = v[i].start_node as i64 + d as i64;
        let e = v[i].end_node as i64 + d as i64;
        if s < i32::MIN as i64 || s > i32::MAX as i64 || e < i32::MIN as i64 || e > i32::MAX as i64 {
            return false;
        }
        i = i + 1;
    }
    true
}

/// The readings moved by `d` nodes, in order.
pub fn move_readings(v: Vec<MorphInterpretation>, d: i32) -> (r: Vec<MorphInterpretation>)
    requires
        forall|i: int| 0 <= i < v@.len() ==> i32::MIN <= (#[trigger] v@[i]).start_node + d <= i32::MAX
            && i32::MIN <= v@[i].end_node + d <= i32::MAX,
    ensures
        r@.len() == v@.len(),
        forall|i: int| 0 <= i < r@.len() ==> moved_reading(#[trigger] r@[i], v@[i], d as int),
{
    let ghost whole = v@;
    let mut rest = v;
    let mut out: Vec<MorphInterpretation> = Vec::new();
    let mut i: usize = 0;
    let total = rest.len();
    proof {
        assert(whole.skip(0) =~= whole);
    }
    while rest.len() > 0
        invariant
            i <= whole.len(),
            whole.len() == total,
            rest@ == whole.skip(i as int),
            out@.len() == i,
            forall|k: int| 0 <= k < whole.len() ==> i32::MIN <= (#[trigger] whole[k]).start_node + d <= i32::MAX
                && i32::MIN <= whole[k].end_node + d <= i32::MAX,
            forall|k: int| 0 <= k < out@.len() ==> moved_reading(#[trigger] out@[k], whole[k], d as int),
        decreases rest@.len(),
    {
        let m = rest.remove(0);
        proof {
            assert(rest@ =~= whole.skip(i + 1));
            assert(m == whole[i as int]);
        }
        out.push(MorphInterpretation {
            start_node: m.start_node + d,
            end_node: m.end_node + d,
            orth: m.orth,
            lemma: m.lemma,
            tag_id: m.tag_id,
            name_id: m.name_id,
            labels_id: m.labels_id,
        });
        i = i + 1;
    }
    out
}

impl Default for MorphInterpretation {
    fn default() -> (r: Self)
        ensures
            r.start_node == 0 && r.end_node == 0 && r.orth@ == Seq::<char>::empty()
                && r.lemma@ == Seq::<char>::empty() && r.tag_id == 0 && r.name_id == 0
                && r.labels_id == 0,
    {
        MorphInterpretation {
            start_node: 0,
            end_node: 0,
            orth: String::new(),
            lemma: String::new(),
            tag_id: 0,
            name_id: 0,
            labels_id: 0,
        }
    }
}

impl MorphInterpretation {
    /// An unknown-word (`ign`, tag 0) reading.
    pub fn create_ign(start_node: i32, end_node: i32, orth: &str, lemma: &str) -> (r: Self)
        ensures
            r.start_node == start_node && r.end_node == end_node && r.orth@ == orth@
                && r.lemma@ == lemma@ && r.tag_id == 0 && r.name_id == 0 && r.labels_id == 0,
    {
        MorphInterpretation {
            start_node,
            end_node,
            orth: orth.to_owned(),
            lemma: lemma.to_owned(),
            tag_id: 0,
            name_id: 0,
            labels_id: 0,
        }
    }

    /// A whitespace (`sp`, tag 1) reading whose lemma is its orth.
    pub fn create_whitespace(start_node: i32, end_node: i32, orth: &str) -> (r: Self)
        ensures
            r.start_node == start_node && r.end_node == end_node && r.orth@ == orth@
                && r.lemma@ == orth@ && r.tag_id == 1 && r.name_id == 0 && r.labels_id == 0,
    {
        MorphInterpretation {
            start_node,
            end_node,
            orth: orth.to_owned(),
            lemma: orth.to_owned(),
            tag_id: 1,
            name_id: 0,
            labels_id: 0,
        }
    }

    pub fn is_ign(&self) -> (r: bool)
        ensures
            r == (self.tag_id == 0),
    {
        self.tag_id == 0
    }

    pub fn is_whitespace(&self) -> (r: bool)
        ensures
            r == (self.tag_id == 1),
    {
        self.tag_id == 1
    }

    pub fn tag<'a>(&self, resolver: &'a IdResolver) -> (r: Option<&'a str>)
        ensures
            r matches Some(t) ==> t@ == resolver.spec_tag(self.tag_id as int),
            r is Some <==> resolver.has_tag(self.tag_id as int),
    {
        resolver.tag(self.tag_id)
    }

    pub fn name<'a>(&self, resolver: &'a IdResolver) -> (r: Option<&'a str>)
        ensures
            r matches Some(t) ==> t@ == resolver.spec_name(self.name_id as int),
            r is Some <==> resolver.has_name(self.name_id as int),
    {
        resolver.name(self.name_id)
    }

    pub fn labels_as_string<'a>(&self, resolver: &'a IdResolver) -> (r: Option<&'a str>)
        ensures
            r matches Some(t) ==> t@ == resolver.spec_labels(self.labels_id as int),
            r is Some <==> resolver.has_labels(self.labels_id as int),
    {
        resolver.labels_as_string(self.labels_id)
    }

    pub fn labels<'a>(&self, resolver: &'a IdResolver) -> (r: Option<&'a LabelSet>)
        requires
            resolver.wf(),
        ensures
            r is Some <==> resolver.has_labels(self.labels_id as int),
    {
        resolver.labels(self.labels_id)
    }
}

} // verus!
