//! Encoded interpretations: the groups stored with each dictionary entry,
//! their analyzer and generator records, and the case patterns of forms.
use vstd::prelude::*;
use crate::error::{Error, Result};
use crate::text::{owned, push_char, push_str};
use crate::types::MorphInterpretation;
use super::case::{
    analyzer_lemma, char_is_lowercase_equivalent, decode_analyzer_lemma_for_form,
    decode_analyzer_lemma_for_form_in_context, drop_suffix_chars, flags_match, case_pattern_matches_orth,
    lower_equiv, AnalyzerFormView, AnalyzerOrthContext,
};
use super::read::{
    be_u16, c_string_at, dict_error, dict_error_num, lemma_c_string_at, read_c_string_from_slice, read_u16, read_u8, truncated_at,
    validate_min_len,
};
use super::{
    CASE_PATTERN_MIXED, CASE_PATTERN_ONLY_LOWER, CASE_PATTERN_UPPER_PREFIX, LEMMA_ONLY_LOWER,
    LEMMA_ONLY_TITLE, ORTH_ONLY_LOWER, ORTH_ONLY_TITLE, PREFIX_CUT_MASK,
};
use crate::text::chars_of;

verus! {

/// One group of interpretations in an entry's payload: its segment type
/// and its undecoded bytes.
#[derive(Debug, Clone, Copy, PartialEq, Eq)]
pub struct RawInterpsGroup<'a> {
    pub segment_type: u8,
    pub data: &'a [u8],
}

/// How a form is derived from a word: characters cut from its start and
/// end, a suffix and a prefix added, and which characters are uppercase.
#[derive(Debug, Clone, PartialEq, Eq)]
pub struct EncodedForm {
    pub prefix_to_cut: u8,
    pub suffix_to_cut: u8,
    pub suffix_to_add: String,
    pub case_pattern: Vec<bool>,
    pub prefix_to_add: String,
}

impl AnalyzerFormView for EncodedForm {
    open spec fn spec_prefix_to_cut(&self) -> u8 {
        self.prefix_to_cut
    }

    open spec fn spec_suffix_to_cut(&self) -> u8 {
        self.suffix_to_cut
    }

    open spec fn spec_suffix_to_add(&self) -> Seq<char> {
        self.suffix_to_add@
    }

    open spec fn spec_pattern_empty(&self) -> bool {
        self.case_pattern@.len() == 0
    }

    open spec fn spec_upper_at(&self, index: int) -> bool {
        0 <= index < self.case_pattern@.len() && self.case_pattern@[index]
    }

    proof fn lemma_empty_pattern(&self, index: int) {
    }

    fn prefix_to_cut(&self) -> (r: u8) {
        self.prefix_to_cut
    }

    fn suffix_to_cut(&self) -> (r: u8) {
        self.suffix_to_cut
    }

    fn suffix_to_add(&self) -> (r: &str) {
        self.suffix_to_add.as_str()
    }

    fn case_pattern_is_empty(&self) -> (r: bool) {
        self.case_pattern.len() == 0
    }

    fn case_pattern_is_uppercase_at(&self, index: usize) -> (r: bool) {
        index < self.case_pattern.len() && self.case_pattern[index]
    }
}

/// An analyzer interpretation with its case patterns as flags.
#[derive(Debug, Clone, PartialEq, Eq)]
pub struct EncodedAnalyzerInterpretation {
    pub orth_case_pattern: Vec<bool>,
    pub form: EncodedForm,
    pub tag_id: i32,
    pub name_id: i32,
    pub labels_id: i32,
}

impl EncodedAnalyzerInterpretation {
    /// Whether the word's case agrees with the interpretation.
    pub fn matches_orth_case(&self, orth: &str) -> (r: bool)
        ensures
            r == flags_match(orth@, self.orth_case_pattern@),
    {
        case_pattern_matches_orth(orth, self.orth_case_pattern.as_slice())
    }

    /// The interpretation of `orth` as one edge, with its decoded lemma.
    pub fn to_morph_interpretation(&self, orth: &str, start_node: i32, end_node: i32) -> (r: Result<MorphInterpretation>)
        ensures
            r is Ok <==> analyzer_lemma(orth@, self.form) is Some,
            r matches Ok(m) ==> m.start_node == start_node && m.end_node == end_node && m.orth@ == orth@
                && Some(m.lemma@) == analyzer_lemma(orth@, self.form) && m.tag_id == self.tag_id
                && m.name_id == self.name_id && m.labels_id == self.labels_id,
            r matches Err(e) ==> e is InvalidDictionary,
    {
        let lemma = decode_analyzer_lemma_for_form(orth, &self.form)?;
        Ok(MorphInterpretation {
            start_node,
            end_node,
            orth: owned(orth),
            lemma,
            tag_id: self.tag_id,
            name_id: self.name_id,
            labels_id: self.labels_id,
        })
    }
}

/// Which characters of a form are uppercase: none, a prefix of a given
/// length, or those at the listed positions.
#[derive(Debug, Clone, PartialEq, Eq)]
pub enum BinaryCasePattern {
    Lower,
    UpperPrefix(usize),
    Mixed(Vec<usize>),
}

/// The listed positions must hold non-lowercase characters, read in turn:
/// each position at or after the one following the previous check.
pub open spec fn mixed_match(orth: Seq<char>, indices: Seq<usize>, k: int, current: int) -> bool
    decreases indices.len() - k,
{
    if k >= indices.len() || k < 0 {
        true
    } else {
        let pos = if current < indices[k] { indices[k] as int } else { current };
        pos < orth.len() && !lower_equiv(orth[pos]) && mixed_match(orth, indices, k + 1, pos + 1)
    }
}

/// Whether `index` is one of the positions.
pub open spec fn listed(ix: Seq<usize>, index: int) -> bool {
    exists|k: int| 0 <= k < ix.len() && #[trigger] ix[k] == index
}

impl BinaryCasePattern {
    pub open spec fn wf(&self) -> bool {
        match self {
            BinaryCasePattern::Lower => true,
            BinaryCasePattern::UpperPrefix(n) => *n < 256,
            BinaryCasePattern::Mixed(ix) => forall|i: int| 0 <= i < ix@.len() ==> #[trigger] ix@[i] < 256,
        }
    }

    pub open spec fn spec_upper_at(self, index: int) -> bool {
        match self {
            BinaryCasePattern::Lower => false,
            BinaryCasePattern::UpperPrefix(n) => 0 <= index < n,
            BinaryCasePattern::Mixed(ix) => listed(ix@, index),
        }
    }

    pub open spec fn spec_matches(&self, orth: Seq<char>) -> bool {
        match self {
            BinaryCasePattern::Lower => true,
            BinaryCasePattern::UpperPrefix(n) => *n <= orth.len()
                && forall|i: int| 0 <= i < *n ==> !lower_equiv(#[trigger] orth[i]),
            BinaryCasePattern::Mixed(ix) => mixed_match(orth, ix@, 0, 0),
        }
    }

    pub fn is_empty(&self) -> (r: bool)
        ensures
            r == (*self is Lower),
    {
        match self {
            BinaryCasePattern::Lower => true,
            _ => false,
        }
    }

    pub fn is_uppercase_at(&self, index: usize) -> (r: bool)
        ensures
            r == self.spec_upper_at(index as int),
    {
        match self {
            BinaryCasePattern::Lower => false,
            BinaryCasePattern::UpperPrefix(len) => index < *len,
            BinaryCasePattern::Mixed(indices) => {
                let mut i: usize = 0;
                while i < indices.len()
                    invariant
                        *self == BinaryCasePattern::Mixed(*indices),
                        i <= indices@.len(),
                        forall|k: int| 0 <= k < i ==> indices@[k] != index,
                    decreases indices@.len() - i,
                {
                    if indices[i] == index {
                        let ghost w = indices@[i as int];
                        assert(w == index);
                        return true;
                    }
                    i = i + 1;
                }
                false
            },
        }
    }

    /// Whether the word's case agrees with the pattern.
    pub fn matches_orth(&self, orth: &str) -> (r: bool)
        ensures
            r == self.spec_matches(orth@),
    {
        let chars = chars_of(orth);
        match self {
            BinaryCasePattern::Lower => true,
            BinaryCasePattern::UpperPrefix(len) => {
                if *len > chars.len() {
                    return false;
                }
                let mut i: usize = 0;
                while i < *len
                    invariant
                        *self == BinaryCasePattern::UpperPrefix(*len),
                        chars@ == orth@,
                        *len <= chars@.len(),
                        i <= *len,
                        forall|k: int| 0 <= k < i ==> !lower_equiv(#[trigger] orth@[k]),
                    decreases *len - i,
                {
                    if char_is_lowercase_equivalent(chars[i]) {
                        assert(lower_equiv(orth@[i as int]));
                        return false;
                    }
                    i = i + 1;
                }
                true
            },
            BinaryCasePattern::Mixed(indices) => {
                let mut current: usize = 0;
                let mut k: usize = 0;
                while k < indices.len()
                    invariant
                        *self == BinaryCasePattern::Mixed(*indices),
                        chars@ == orth@,
                        k <= indices@.len(),
                        current <= chars@.len(),
                        mixed_match(orth@, indices@, 0, 0) == mixed_match(orth@, indices@, k as int, current as int),
                    decreases indices@.len() - k,
                {
                    let wanted = indices[k];
                    let pos = if current < wanted { wanted } else { current };
                    if pos >= chars.len() {
                        assert(!mixed_match(orth@, indices@, k as int, current as int));
                        return false;
                    }
                    if char_is_lowercase_equivalent(chars[pos]) {
                        assert(!mixed_match(orth@, indices@, k as int, current as int));
                        return false;
                    }
                    current = pos + 1;
                    k = k + 1;
                }
                true
            },
        }
    }

    /// The pattern of a form placed after `prefix_len` lowercase characters.
    pub fn shifted_by_lower_prefix(&self, prefix_len: usize) -> (r: Self)
        requires
            self.wf(),
            prefix_len < usize::MAX - 256,
        ensures
            forall|i: int| #![auto] r.spec_upper_at(i)
                == (i >= prefix_len && self.spec_upper_at(i - prefix_len)),
    {
        match self {
            BinaryCasePattern::Lower => BinaryCasePattern::Lower,
            BinaryCasePattern::UpperPrefix(len) => {
                if prefix_len == 0 {
                    return BinaryCasePattern::UpperPrefix(*len);
                }
                let mut out: Vec<usize> = Vec::new();
                let mut i: usize = 0;
                while i < *len
                    invariant
                        *len < 256,
                        prefix_len < usize::MAX - 256,
                        i <= *len,
                        out@.len() == i,
                        forall|k: int| 0 <= k < i ==> #[trigger] out@[k] == k + prefix_len,
                    decreases *len - i,
                {
                    out.push(i + prefix_len);
                    i = i + 1;
                }
                proof {
                    let r = BinaryCasePattern::Mixed(out);
                    assert forall|x: int| #![auto] r.spec_upper_at(x) == (x >= prefix_len && 0 <= x - prefix_len < *len) by {
                        if x >= prefix_len && 0 <= x - prefix_len < *len {
                            assert(out@[x - prefix_len] == x);
                        }
                        if r.spec_upper_at(x) {
                            let k = choose|k: int| 0 <= k < out@.len() && #[trigger] out@[k] == x;
                            assert(out@[k] == k + prefix_len);
                        }
                    }
                }
                BinaryCasePattern::Mixed(out)
            },
            BinaryCasePattern::Mixed(indices) => {
                if prefix_len == 0 {
                    let mut copy: Vec<usize> = Vec::new();
                    let mut i: usize = 0;
                    while i < indices.len()
                        invariant
                            i <= indices@.len(),
                            copy@ == indices@.take(i as int),
                        decreases indices@.len() - i,
                    {
                        copy.push(indices[i]);
                        i = i + 1;
                        assert(copy@ =~= indices@.take(i as int));
                    }
                    assert(copy@ =~= indices@);
                    return BinaryCasePattern::Mixed(copy);
                }
                let mut out: Vec<usize> = Vec::new();
                let mut i: usize = 0;
                while i < indices.len()
                    invariant
                        forall|k: int| 0 <= k < indices@.len() ==> #[trigger] indices@[k] < 256,
                        prefix_len < usize::MAX - 256,
                        i <= indices@.len(),
                        out@.len() == i,
                        forall|k: int| 0 <= k < i ==> #[trigger] out@[k] == indices@[k] + prefix_len,
                    decreases indices@.len() - i,
                {
                    out.push(indices[i] + prefix_len);
                    i = i + 1;
                }
                proof {
                    let r = BinaryCasePattern::Mixed(out);
                    assert forall|x: int| #![auto] r.spec_upper_at(x)
                        == (x >= prefix_len && self.spec_upper_at(x - prefix_len)) by {
                        if r.spec_upper_at(x) {
                            let k = choose|k: int| 0 <= k < out@.len() && #[trigger] out@[k] == x;
                            assert(indices@[k] == x - prefix_len);
                        }
                        if x >= prefix_len && self.spec_upper_at(x - prefix_len) {
                            let k = choose|k: int| 0 <= k < indices@.len() && #[trigger] indices@[k] == x - prefix_len;
                            assert(out@[k] == x);
                        }
                    }
                }
                BinaryCasePattern::Mixed(out)
            },
        }
    }

    /// The pattern as flags: one per position up to the last uppercase one.
    pub fn into_vec(self) -> (r: Vec<bool>)
        requires
            self.wf(),
        ensures
            forall|i: int| 0 <= i < r@.len() ==> #[trigger] r@[i] == self.spec_upper_at(i),
            forall|i: int| i >= r@.len() ==> !self.spec_upper_at(i),
            r@.len() > 0 ==> r@[r@.len() - 1],
    {
        match self {
            BinaryCasePattern::Lower => Vec::new(),
            BinaryCasePattern::UpperPrefix(len) => {
                let mut out: Vec<bool> = Vec::new();
                let mut i: usize = 0;
                while i < len
                    invariant
                        i <= len,
                        out@.len() == i,
                        forall|k: int| 0 <= k < i ==> #[trigger] out@[k],
                    decreases len - i,
                {
                    out.push(true);
                    i = i + 1;
                }
                out
            },
            BinaryCasePattern::Mixed(indices) => {
                let mut size: usize = 0;
                let mut i: usize = 0;
                while i < indices.len()
                    invariant
                        forall|k: int| 0 <= k < indices@.len() ==> #[trigger] indices@[k] < 256,
                        i <= indices@.len(),
                        size <= 256,
                        forall|k: int| 0 <= k < i ==> #[trigger] indices@[k] < size,
                        i == 0 ==> size == 0,
                        i > 0 ==> exists|k: int| 0 <= k < i && indices@[k] + 1 == size,
                    decreases indices@.len() - i,
                {
                    if indices[i] + 1 > size {
                        size = indices[i] + 1;
                    }
                    i = i + 1;
                }
                let mut out: Vec<bool> = Vec::new();
                let mut j: usize = 0;
                while j < size
                    invariant
                        j <= size,
                        out@.len() == j,
                        forall|k: int| 0 <= k < j ==> !#[trigger] out@[k],
                    decreases size - j,
                {
                    out.push(false);
                    j = j + 1;
                }
                let mut i: usize = 0;
                while i < indices.len()
                    invariant
                        i <= indices@.len(),
                        out@.len() == size,
                        forall|k: int| 0 <= k < indices@.len() ==> #[trigger] indices@[k] < size,
                        forall|x: int| 0 <= x < size ==> (#[trigger] out@[x] <==>
                            exists|k: int| 0 <= k < i && #[trigger] indices@[k] == x),
                    decreases indices@.len() - i,
                {
                    let ghost before = out@;
                    out.set(indices[i], true);
                    proof {
                        assert forall|x: int| 0 <= x < size implies (#[trigger] out@[x] <==>
                            exists|k: int| 0 <= k < i + 1 && #[trigger] indices@[k] == x) by {
                            if x == indices@[i as int] {
                                assert(indices@[i as int] == x);
                            } else {
                                assert(out@[x] == before[x]);
                            }
                        }
                    }
                    i = i + 1;
                }
                proof {
                    assert forall|x: int| x >= out@.len() implies !self.spec_upper_at(x) by {
                        if self.spec_upper_at(x) {
                            let k = choose|k: int| 0 <= k < indices@.len() && #[trigger] indices@[k] == x;
                        }
                    }
                    if size > 0 {
                        let k = choose|k: int| 0 <= k < indices@.len() && indices@[k] + 1 == size;
                        assert(indices@[k] == size - 1);
                        assert(out@[size - 1]);
                    }
                }
                out
            },
        }
    }
}

/// An analyzer form with its lemma case pattern in compact form.
#[derive(Debug, Clone, PartialEq, Eq)]
pub struct BinaryAnalyzerForm {
    pub prefix_to_cut: u8,
    pub suffix_to_cut: u8,
    pub suffix_to_add: String,
    pub case_pattern: BinaryCasePattern,
}

impl AnalyzerFormView for BinaryAnalyzerForm {
    open spec fn spec_prefix_to_cut(&self) -> u8 {
        self.prefix_to_cut
    }

    open spec fn spec_suffix_to_cut(&self) -> u8 {
        self.suffix_to_cut
    }

    open spec fn spec_suffix_to_add(&self) -> Seq<char> {
        self.suffix_to_add@
    }

    open spec fn spec_pattern_empty(&self) -> bool {
        self.case_pattern is Lower
    }

    open spec fn spec_upper_at(&self, index: int) -> bool {
        self.case_pattern.spec_upper_at(index)
    }

    proof fn lemma_empty_pattern(&self, index: int) {
    }

    fn prefix_to_cut(&self) -> (r: u8) {
        self.prefix_to_cut
    }

    fn suffix_to_cut(&self) -> (r: u8) {
        self.suffix_to_cut
    }

    fn suffix_to_add(&self) -> (r: &str) {
        self.suffix_to_add.as_str()
    }

    fn case_pattern_is_empty(&self) -> (r: bool) {
        self.case_pattern.is_empty()
    }

    fn case_pattern_is_uppercase_at(&self, index: usize) -> (r: bool) {
        self.case_pattern.is_uppercase_at(index)
    }
}

/// An analyzer interpretation with compact case patterns.
#[derive(Debug, Clone, PartialEq, Eq)]
pub struct BinaryAnalyzerInterpretation {
    pub orth_case_pattern: BinaryCasePattern,
    pub form: BinaryAnalyzerForm,
    pub tag_id: i32,
    pub name_id: i32,
    pub labels_id: i32,
}

impl BinaryAnalyzerInterpretation {
    pub open spec fn wf(&self) -> bool {
        self.orth_case_pattern.wf() && self.form.case_pattern.wf()
    }

    /// Whether the word's case agrees with the interpretation.
    pub fn matches_orth_case(&self, orth: &str) -> (r: bool)
        ensures
            r == self.orth_case_pattern.spec_matches(orth@),
    {
        self.orth_case_pattern.matches_orth(orth)
    }

    /// The interpretation of the context's word as one edge.
    pub fn to_morph_interpretation_in_context(&self, context: &AnalyzerOrthContext<'_>, start_node: i32, end_node: i32) -> (r: Result<MorphInterpretation>)
        requires
            context.wf(),
        ensures
            r is Ok <==> analyzer_lemma(context.orth@, self.form) is Some,
            r matches Ok(m) ==> m.start_node == start_node && m.end_node == end_node && m.orth@ == context.orth@
                && Some(m.lemma@) == analyzer_lemma(context.orth@, self.form) && m.tag_id == self.tag_id
                && m.name_id == self.name_id && m.labels_id == self.labels_id,
            r matches Err(e) ==> e is InvalidDictionary,
    {
        let lemma = decode_analyzer_lemma_for_form_in_context(context, &self.form)?;
        Ok(MorphInterpretation {
            start_node,
            end_node,
            orth: owned(context.orth),
            lemma,
            tag_id: self.tag_id,
            name_id: self.name_id,
            labels_id: self.labels_id,
        })
    }

    /// The interpretation with its case patterns as flags.
    pub fn into_public(self) -> (r: EncodedAnalyzerInterpretation)
        requires
            self.wf(),
        ensures
            r.form.prefix_to_cut == self.form.prefix_to_cut,
            r.form.suffix_to_cut == self.form.suffix_to_cut,
            r.form.suffix_to_add@ == self.form.suffix_to_add@,
            r.form.prefix_to_add@ == Seq::<char>::empty(),
            forall|i: int| r.form.spec_upper_at(i) == self.form.case_pattern.spec_upper_at(i),
            forall|i: int| 0 <= i < r.form.case_pattern@.len() ==> #[trigger] r.form.case_pattern@[i] == self.form.case_pattern.spec_upper_at(i),
            forall|i: int| i >= r.form.case_pattern@.len() ==> !self.form.case_pattern.spec_upper_at(i),
            r.form.case_pattern@.len() > 0 ==> r.form.case_pattern@[r.form.case_pattern@.len() - 1],
            forall|i: int| 0 <= i < r.orth_case_pattern@.len() ==> #[trigger] r.orth_case_pattern@[i] == self.orth_case_pattern.spec_upper_at(i),
            forall|i: int| i >= r.orth_case_pattern@.len() ==> !self.orth_case_pattern.spec_upper_at(i),
            r.orth_case_pattern@.len() > 0 ==> r.orth_case_pattern@[r.orth_case_pattern@.len() - 1],
            r.tag_id == self.tag_id && r.name_id == self.name_id && r.labels_id == self.labels_id,
    {
        let form_pattern = self.form.case_pattern.into_vec();
        EncodedAnalyzerInterpretation {
            orth_case_pattern: self.orth_case_pattern.into_vec(),
            form: EncodedForm {
                prefix_to_cut: self.form.prefix_to_cut,
                suffix_to_cut: self.form.suffix_to_cut,
                suffix_to_add: self.form.suffix_to_add,
                case_pattern: form_pattern,
                prefix_to_add: String::new(),
            },
            tag_id: self.tag_id,
            name_id: self.name_id,
            labels_id: self.labels_id,
        }
    }
}

/// A decoded group of analyzer interpretations.
#[derive(Debug, Clone, PartialEq, Eq)]
pub struct EncodedAnalyzerInterpsGroup {
    pub segment_type: u8,
    pub interpretations: Vec<EncodedAnalyzerInterpretation>,
}

/// A generator interpretation: the form derived from a lemma.
#[derive(Debug, Clone, PartialEq, Eq)]
pub struct EncodedGeneratorInterpretation {
    pub homonym_id: String,
    pub form: EncodedForm,
    pub tag_id: i32,
    pub name_id: i32,
    pub labels_id: i32,
}

/// The form generated from a lemma: the form's prefix, the lemma without
/// its cut suffix, then the form's suffix.
pub open spec fn generated_orth(lemma: Seq<char>, form: EncodedForm) -> Option<Seq<char>> {
    if form.suffix_to_cut <= lemma.len() {
        Some(form.prefix_to_add@ + lemma.take(lemma.len() - form.suffix_to_cut) + form.suffix_to_add@)
    } else {
        None
    }
}

/// The lemma reported for a generated form: with `:` and the homonym id
/// when there is one.
pub open spec fn generated_lemma(lemma: Seq<char>, homonym_id: Seq<char>) -> Seq<char> {
    if homonym_id.len() == 0 {
        lemma
    } else {
        lemma + seq![':'] + homonym_id
    }
}

impl EncodedGeneratorInterpretation {
    /// The form generated from `lemma` as one edge.
    pub fn to_morph_interpretation(&self, lemma: &str, start_node: i32, end_node: i32) -> (r: Result<MorphInterpretation>)
        ensures
            r is Ok <==> generated_orth(lemma@, self.form) is Some,
            r matches Ok(m) ==> m.start_node == start_node && m.end_node == end_node
                && Some(m.orth@) == generated_orth(lemma@, self.form)
                && m.lemma@ == generated_lemma(lemma@, self.homonym_id@)
                && m.tag_id == self.tag_id && m.name_id == self.name_id && m.labels_id == self.labels_id,
            r matches Err(e) ==> e is InvalidDictionary,
    {
        let mut orth = owned(self.form.prefix_to_add.as_str());
        let kept = drop_suffix_chars(lemma, self.form.suffix_to_cut as usize)?;
        push_str(&mut orth, kept.as_str());
        push_str(&mut orth, self.form.suffix_to_add.as_str());
        let mut out_lemma = owned(lemma);
        if !self.homonym_id.as_str().is_empty() {
            push_char(&mut out_lemma, ':');
            push_str(&mut out_lemma, self.homonym_id.as_str());
        }
        Ok(MorphInterpretation {
            start_node,
            end_node,
            orth,
            lemma: out_lemma,
            tag_id: self.tag_id,
            name_id: self.name_id,
            labels_id: self.labels_id,
        })
    }
}

/// A decoded group of generator interpretations.
#[derive(Debug, Clone, PartialEq, Eq)]
pub struct EncodedGeneratorInterpsGroup {
    pub segment_type: u8,
    pub interpretations: Vec<EncodedGeneratorInterpretation>,
}

/// The framing of a payload from `cursor`: each group is a segment type
/// byte, a 16-bit size and that many bytes. Each group as its segment type
/// and the bounds of its bytes; `None` when a group runs past the end.
pub open spec fn group_frames(payload: Seq<u8>, cursor: int) -> Option<Seq<(u8, int, int)>>
    decreases payload.len() - cursor,
{
    if cursor >= payload.len() || cursor < 0 {
        Some(Seq::empty())
    } else if cursor + 3 > payload.len() {
        None
    } else {
        let end = cursor + 3 + be_u16(payload, cursor + 1);
        if end > payload.len() {
            None
        } else {
            match group_frames(payload, end) {
                Some(rest) => Some(seq![(payload[cursor], cursor + 3, end)] + rest),
                None => None,
            }
        }
    }
}

/// Whether the groups are the framing of the payload.
pub open spec fn groups_match(payload: Seq<u8>, groups: Seq<RawInterpsGroup>, frames: Seq<(u8, int, int)>) -> bool {
    &&& groups.len() == frames.len()
    &&& forall|i: int| 0 <= i < groups.len() ==> (#[trigger] groups[i]).segment_type == frames[i].0
        && groups[i].data@ == payload.subrange(frames[i].1, frames[i].2)
}

/// Splits an entry's payload into its groups; `InvalidDictionary` when a
/// group runs past the end.
pub fn read_raw_interps_groups(payload: &[u8]) -> (r: Result<Vec<RawInterpsGroup<'_>>>)
    ensures
        r is Ok <==> group_frames(payload@, 0) is Some,
        r matches Ok(g) ==> groups_match(payload@, g@, group_frames(payload@, 0)->0),
        r matches Err(e) ==> e is InvalidDictionary,
{
    let mut groups: Vec<RawInterpsGroup<'_>> = Vec::new();
    let mut cursor: usize = 0;
    let n = payload.len();
    while cursor < payload.len()
        invariant
            n == payload@.len(),
            cursor <= n,
            group_frames(payload@, 0) is Some <==> group_frames(payload@, cursor as int) is Some,
            group_frames(payload@, cursor as int) matches Some(rest) ==>
                groups_match(payload@, groups@, group_frames(payload@, 0)->0.take(groups@.len() as int))
                && group_frames(payload@, 0)->0 == group_frames(payload@, 0)->0.take(groups@.len() as int) + rest,
        decreases n - cursor,
    {
        if n - cursor < 3 {
            return Err(truncated_at("interpretations group header", cursor, 3, n));
        }
        let segment_type = payload[cursor];
        let size: usize = (payload[cursor + 1] as usize) * 256 + payload[cursor + 2] as usize;
        let start = cursor + 3;
        if size > n - start {
            return Err(truncated_at("interpretations group data", start, size, n));
        }
        let end = start + size;
        let ghost all = group_frames(payload@, 0)->0;
        let ghost k = groups@.len() as int;
        let data = vstd::slice::slice_subrange(payload, start, end);
        groups.push(RawInterpsGroup { segment_type, data });
        proof {
            if group_frames(payload@, end as int) is Some {
                let rest = group_frames(payload@, end as int)->0;
                assert(group_frames(payload@, cursor as int)->0 == seq![(payload@[cursor as int], start as int, end as int)] + rest);
                assert(all.take(k + 1) =~= all.take(k).push((payload@[cursor as int], start as int, end as int)));
                assert(all =~= all.take(k + 1) + rest);
            }
        }
        cursor = end;
    }
    proof {
        assert(group_frames(payload@, cursor as int) == Some(Seq::<(u8, int, int)>::empty()));
        let all = group_frames(payload@, 0)->0;
        assert(all + Seq::<(u8, int, int)>::empty() =~= all);
    }
    Ok(groups)
}

/// Whether the compression byte gives the orth case patterns itself.
pub fn orth_case_patterns_encoded_in_compression_byte(byte: u8) -> (r: bool)
    ensures
        r == (byte & (ORTH_ONLY_LOWER | ORTH_ONLY_TITLE) != 0),
{
    byte & (ORTH_ONLY_LOWER | ORTH_ONLY_TITLE) != 0
}

/// Whether the compression byte gives the prefix cut itself.
pub fn prefix_cut_encoded_in_compression_byte(byte: u8) -> (r: bool)
    ensures
        r == (byte & PREFIX_CUT_MASK != PREFIX_CUT_MASK),
{
    byte & PREFIX_CUT_MASK != PREFIX_CUT_MASK
}

/// A case pattern as its kind and numbers: lowercase `(0, [])`, an
/// uppercase prefix `(1, [length])`, mixed `(2, positions)`.
pub type PatternView = (u8, Seq<usize>);

pub open spec fn pattern_view(p: BinaryCasePattern) -> PatternView {
    match p {
        BinaryCasePattern::Lower => (0u8, Seq::empty()),
        BinaryCasePattern::UpperPrefix(n) => (1u8, seq![n]),
        BinaryCasePattern::Mixed(ix) => (2u8, ix@),
    }
}

/// Whether the pattern makes position `j` uppercase.
pub open spec fn view_upper_at(p: PatternView, j: int) -> bool {
    if p.0 == 0 {
        false
    } else if p.0 == 1 {
        0 <= j < p.1[0]
    } else {
        listed(p.1, j)
    }
}

/// The case pattern stored at `c`: a kind byte, then a prefix length, or a
/// count and that many positions; the pattern and the offset after it.
pub open spec fn case_pattern_at(s: Seq<u8>, c: int) -> Option<(PatternView, int)> {
    if c < 0 || c >= s.len() {
        None
    } else if s[c] == 0 {
        Some(((0u8, Seq::empty()), c + 1))
    } else if s[c] == 1 {
        if c + 2 > s.len() { None } else { Some(((1u8, seq![s[c + 1] as usize]), c + 2)) }
    } else if s[c] == 2 {
        if c + 2 > s.len() || c + 2 + s[c + 1] > s.len() {
            None
        } else {
            Some(((2u8, Seq::new(s[c + 1] as nat, |i: int| s[c + 2 + i] as usize)), c + 2 + s[c + 1]))
        }
    } else {
        None
    }
}

/// The orth pattern of a record: given by the compression byte's lowercase
/// or title flag, else stored at `c`.
pub open spec fn orth_pattern_at(s: Seq<u8>, c: int, cb: u8) -> Option<(PatternView, int)> {
    if cb & ORTH_ONLY_LOWER != 0 {
        Some(((0u8, Seq::empty()), c))
    } else if cb & ORTH_ONLY_TITLE != 0 {
        Some(((1u8, seq![1usize]), c))
    } else {
        case_pattern_at(s, c)
    }
}

/// The lemma pattern of a record: given by the compression byte's lowercase
/// or title flag, else stored at `c`.
pub open spec fn lemma_pattern_at(s: Seq<u8>, c: int, cb: u8) -> Option<(PatternView, int)> {
    if cb & LEMMA_ONLY_LOWER != 0 {
        Some(((0u8, Seq::empty()), c))
    } else if cb & LEMMA_ONLY_TITLE != 0 {
        Some(((1u8, seq![1usize]), c))
    } else {
        case_pattern_at(s, c)
    }
}

/// An analyzer form: prefix cut, suffix cut, suffix to add, lemma pattern.
pub type AnalyzerFormRecord = (u8, u8, Seq<char>, PatternView);

/// The analyzer form at `c`: the prefix cut (from the compression byte when
/// it gives one, else a byte), the suffix cut byte, the zero-terminated
/// suffix and the lemma pattern; the form and the offset after it.
pub open spec fn analyzer_form_at(s: Seq<u8>, c: int, cb: u8) -> Option<(AnalyzerFormRecord, int)> {
    let prefix: Option<(u8, int)> = if cb & PREFIX_CUT_MASK != PREFIX_CUT_MASK {
        Some((cb & PREFIX_CUT_MASK, c))
    } else if c + 1 > s.len() {
        None
    } else {
        Some((s[c], c + 1))
    };
    match prefix {
        None => None,
        Some((prefix_cut, c1)) => if c1 + 1 > s.len() {
            None
        } else {
            match c_string_at(s, c1 + 1) {
                None => None,
                Some((suffix, c2)) => match lemma_pattern_at(s, c2, cb) {
                    None => None,
                    Some((pattern, c3)) => Some(((prefix_cut, s[c1], suffix, pattern), c3)),
                },
            }
        },
    }
}

/// An analyzer record: orth pattern, form, and tag, name and labels ids.
pub type AnalyzerRecord = (PatternView, AnalyzerFormRecord, int, int, int);

/// The analyzer record at `c`: orth pattern, form, 16-bit tag, 8-bit name
/// and 16-bit labels ids; the record and the offset after it.
pub open spec fn analyzer_record_at(s: Seq<u8>, c: int, cb: u8) -> Option<(AnalyzerRecord, int)> {
    match orth_pattern_at(s, c, cb) {
        None => None,
        Some((orth, c1)) => match analyzer_form_at(s, c1, cb) {
            None => None,
            Some((form, c2)) => if c2 + 5 > s.len() {
                None
            } else {
                Some(((orth, form, be_u16(s, c2), s[c2 + 2] as int, be_u16(s, c2 + 3)), c2 + 5))
            },
        },
    }
}

/// The analyzer records from `c` to the end of the data.
pub open spec fn analyzer_records(s: Seq<u8>, c: int, cb: u8) -> Option<Seq<AnalyzerRecord>>
    decreases s.len() - c,
{
    if c >= s.len() {
        Some(Seq::empty())
    } else {
        match analyzer_record_at(s, c, cb) {
            None => None,
            Some((record, next)) => if next <= c {
                None
            } else {
                match analyzer_records(s, next, cb) {
                    None => None,
                    Some(rest) => Some(seq![record] + rest),
                }
            },
        }
    }
}

/// The offset after `n` stored case patterns from `c`.
pub open spec fn skipped_patterns(s: Seq<u8>, c: int, n: nat) -> Option<int>
    decreases n,
{
    if n == 0 {
        Some(c)
    } else {
        match case_pattern_at(s, c) {
            None => None,
            Some((_, next)) => skipped_patterns(s, next, (n - 1) as nat),
        }
    }
}

/// The records of an analyzer group: a compression byte, the table of orth
/// patterns unless that byte gives them (a count, then the patterns, which
/// are passed over), then the records.
pub open spec fn analyzer_group_records(s: Seq<u8>) -> Option<Seq<AnalyzerRecord>> {
    if s.len() < 1 {
        None
    } else {
        let cb = s[0];
        let start: Option<int> = if cb & (ORTH_ONLY_LOWER | ORTH_ONLY_TITLE) != 0 {
            Some(1)
        } else if s.len() < 2 {
            None
        } else {
            skipped_patterns(s, 2, s[1] as nat)
        };
        match start {
            None => None,
            Some(c) => analyzer_records(s, c, cb),
        }
    }
}

/// What a decoded form says, as a form record.
pub open spec fn form_record_of(f: BinaryAnalyzerForm) -> AnalyzerFormRecord {
    (f.prefix_to_cut, f.suffix_to_cut, f.suffix_to_add@, pattern_view(f.case_pattern))
}

/// What a decoded interpretation says, as a record.
pub open spec fn binary_record_of(i: BinaryAnalyzerInterpretation) -> AnalyzerRecord {
    (pattern_view(i.orth_case_pattern), form_record_of(i.form), i.tag_id as int, i.name_id as int, i.labels_id as int)
}

/// The flags are those of the pattern, up to its last uppercase position.
pub open spec fn flags_for(flags: Seq<bool>, p: PatternView) -> bool {
    &&& forall|j: int| 0 <= j < flags.len() ==> #[trigger] flags[j] == view_upper_at(p, j)
    &&& forall|j: int| j >= flags.len() ==> !view_upper_at(p, j)
    &&& flags.len() > 0 ==> flags[flags.len() - 1]
}

/// The public interpretation says what the record says.
pub open spec fn public_matches(e: EncodedAnalyzerInterpretation, rec: AnalyzerRecord) -> bool {
    let (orth, form, tag, name, labels) = rec;
    let (prefix_cut, suffix_cut, suffix, pattern) = form;
    &&& flags_for(e.orth_case_pattern@, orth)
    &&& e.form.prefix_to_cut == prefix_cut
    &&& e.form.suffix_to_cut == suffix_cut
    &&& e.form.suffix_to_add@ == suffix
    &&& flags_for(e.form.case_pattern@, pattern)
    &&& e.form.prefix_to_add@ == Seq::<char>::empty()
    &&& e.tag_id == tag
    &&& e.name_id == name
    &&& e.labels_id == labels
}

/// Reads a case pattern: a kind byte, then a prefix length, or a count and
/// that many positions; `InvalidDictionary` for another kind or short data.
pub fn read_binary_case_pattern(data: &[u8], cursor: &mut usize) -> (r: Result<BinaryCasePattern>)
    ensures
        r is Ok <==> case_pattern_at(data@, *old(cursor) as int) is Some,
        r matches Ok(p) ==> case_pattern_at(data@, *old(cursor) as int) == Some((pattern_view(p), *final(cursor) as int)),
        r matches Ok(p) ==> p.wf(),
        r matches Err(e) ==> e is InvalidDictionary,
{
    let ghost start = *cursor as int;
    let kind = read_u8(data, cursor, "case pattern kind")?;
    if kind == CASE_PATTERN_ONLY_LOWER {
        Ok(BinaryCasePattern::Lower)
    } else if kind == CASE_PATTERN_UPPER_PREFIX {
        let len = read_u8(data, cursor, "case pattern upper prefix length")? as usize;
        Ok(BinaryCasePattern::UpperPrefix(len))
    } else if kind == CASE_PATTERN_MIXED {
        let uppercase_count = read_u8(data, cursor, "case pattern uppercase count")? as usize;
        let c = *cursor;
        if uppercase_count > data.len() || c > data.len() - uppercase_count {
            return Err(truncated_at("case pattern uppercase indices", c, uppercase_count, data.len()));
        }
        let mut indices: Vec<usize> = Vec::new();
        let mut i: usize = 0;
        while i < uppercase_count
            invariant
                c + uppercase_count <= data@.len(),
                c + uppercase_count <= usize::MAX,
                i <= uppercase_count,
                indices@.len() == i,
                forall|k: int| 0 <= k < i ==> #[trigger] indices@[k] == data@[c + k],
            decreases uppercase_count - i,
        {
            indices.push(data[c + i] as usize);
            i = i + 1;
        }
        *cursor = c + uppercase_count;
        proof {
            let s = data@;
            assert(indices@ =~= Seq::new(s[start + 1] as nat, |k: int| s[start + 2 + k] as usize));
        }
        Ok(BinaryCasePattern::Mixed(indices))
    } else {
        Err(dict_error_num("unsupported case pattern kind: ", kind as u64, ""))
    }
}

/// Moves past a case pattern without building it.
pub fn skip_case_pattern(data: &[u8], cursor: &mut usize) -> (r: Result<()>)
    ensures
        r is Ok <==> case_pattern_at(data@, *old(cursor) as int) is Some,
        r is Ok ==> (case_pattern_at(data@, *old(cursor) as int) matches Some((_, next)) && *final(cursor) == next),
        r matches Err(e) ==> e is InvalidDictionary,
{
    let start = *cursor;
    let kind = read_u8(data, cursor, "case pattern kind")?;
    if kind == CASE_PATTERN_ONLY_LOWER {
        Ok(())
    } else if kind == CASE_PATTERN_UPPER_PREFIX {
        match read_u8(data, cursor, "case pattern upper prefix length") {
            Ok(_) => Ok(()),
            Err(e) => {
                *cursor = start;
                Err(e)
            },
        }
    } else if kind == CASE_PATTERN_MIXED {
        let uppercase_count = match read_u8(data, cursor, "case pattern uppercase count") {
            Ok(v) => v as usize,
            Err(e) => {
                *cursor = start;
                return Err(e);
            },
        };
        let c = *cursor;
        if uppercase_count > data.len() || c > data.len() - uppercase_count {
            *cursor = start;
            return Err(truncated_at("case pattern uppercase indices", c, uppercase_count, data.len()));
        }
        *cursor = c + uppercase_count;
        Ok(())
    } else {
        *cursor = start;
        Err(dict_error_num("unsupported case pattern kind: ", kind as u64, ""))
    }
}

/// The orth case pattern: given by the compression byte's lowercase or
/// title flag, else read from the data.
pub fn read_binary_orth_case_pattern(data: &[u8], cursor: &mut usize, compression_byte: u8) -> (r: Result<BinaryCasePattern>)
    ensures
        r is Ok <==> orth_pattern_at(data@, *old(cursor) as int, compression_byte) is Some,
        r matches Ok(p) ==> orth_pattern_at(data@, *old(cursor) as int, compression_byte)
            == Some((pattern_view(p), *final(cursor) as int)),
        r matches Ok(p) ==> p.wf(),
        r matches Err(e) ==> e is InvalidDictionary,
{
    if compression_byte & ORTH_ONLY_LOWER != 0 {
        Ok(BinaryCasePattern::Lower)
    } else if compression_byte & ORTH_ONLY_TITLE != 0 {
        Ok(BinaryCasePattern::UpperPrefix(1))
    } else {
        read_binary_case_pattern(data, cursor)
    }
}

/// The lemma case pattern: given by the compression byte's lowercase or
/// title flag, else read from the data.
pub fn read_binary_lemma_case_pattern(data: &[u8], cursor: &mut usize, compression_byte: u8) -> (r: Result<BinaryCasePattern>)
    ensures
        r is Ok <==> lemma_pattern_at(data@, *old(cursor) as int, compression_byte) is Some,
        r matches Ok(p) ==> lemma_pattern_at(data@, *old(cursor) as int, compression_byte)
            == Some((pattern_view(p), *final(cursor) as int)),
        r matches Ok(p) ==> p.wf(),
        r matches Err(e) ==> e is InvalidDictionary,
{
    if compression_byte & LEMMA_ONLY_LOWER != 0 {
        Ok(BinaryCasePattern::Lower)
    } else if compression_byte & LEMMA_ONLY_TITLE != 0 {
        Ok(BinaryCasePattern::UpperPrefix(1))
    } else {
        read_binary_case_pattern(data, cursor)
    }
}

/// Reads an analyzer form: the prefix cut (from the compression byte when
/// it gives one), the suffix cut, the suffix to add and the lemma pattern.
pub fn read_binary_analyzer_form(data: &[u8], cursor: &mut usize, compression_byte: u8) -> (r: Result<BinaryAnalyzerForm>)
    ensures
        r is Ok <==> analyzer_form_at(data@, *old(cursor) as int, compression_byte) is Some,
        r matches Ok(f) ==> analyzer_form_at(data@, *old(cursor) as int, compression_byte)
            == Some((form_record_of(f), *final(cursor) as int)),
        r matches Ok(f) ==> f.case_pattern.wf(),
        r is Ok ==> *old(cursor) < *final(cursor),
        r matches Ok(f) ==> (compression_byte & PREFIX_CUT_MASK != PREFIX_CUT_MASK
            ==> f.prefix_to_cut == compression_byte & PREFIX_CUT_MASK),
        r matches Err(e) ==> e is InvalidDictionary,
{
    let ghost s = data@;
    let ghost start = *cursor as int;
    let prefix_to_cut = if prefix_cut_encoded_in_compression_byte(compression_byte) {
        compression_byte & PREFIX_CUT_MASK
    } else {
        read_u8(data, cursor, "analyzer prefix cut")?
    };
    let ghost c1 = *cursor as int;
    let suffix_to_cut = read_u8(data, cursor, "analyzer suffix cut")?;
    let suffix_to_add = read_c_string_from_slice(data, cursor, "analyzer suffix to add")?;
    let ghost c2 = *cursor as int;
    proof { lemma_c_string_at(s, c1 + 1, suffix_to_add@, c2); }
    let case_pattern = read_binary_lemma_case_pattern(data, cursor, compression_byte)?;
    Ok(BinaryAnalyzerForm { prefix_to_cut, suffix_to_cut, suffix_to_add, case_pattern })
}

/// Reads one analyzer record at the cursor and moves past it.
fn decode_analyzer_record(data: &[u8], cursor: &mut usize, compression_byte: u8) -> (r: Result<BinaryAnalyzerInterpretation>)
    ensures
        r is Ok <==> analyzer_record_at(data@, *old(cursor) as int, compression_byte) is Some,
        r matches Ok(item) ==> analyzer_record_at(data@, *old(cursor) as int, compression_byte)
            == Some((binary_record_of(item), *final(cursor) as int)),
        r is Ok ==> *old(cursor) < *final(cursor) <= data@.len(),
        r matches Ok(item) ==> item.wf() && 0 <= item.tag_id < 65536 && 0 <= item.name_id < 256
            && 0 <= item.labels_id < 65536,
        r matches Err(e) ==> e is InvalidDictionary,
{
    let orth_case_pattern = read_binary_orth_case_pattern(data, cursor, compression_byte)?;
    let form = read_binary_analyzer_form(data, cursor, compression_byte)?;
    let tag_id = read_u16(data, cursor, "analyzer tag id")? as i32;
    let name_id = read_u8(data, cursor, "analyzer name id")? as i32;
    let labels_id = read_u16(data, cursor, "analyzer labels id")? as i32;
    Ok(BinaryAnalyzerInterpretation { orth_case_pattern, form, tag_id, name_id, labels_id })
}

/// Decodes the analyzer interpretations of a group: a compression byte,
/// the orth case patterns unless that byte gives them, then records of
/// orth pattern, form, 16-bit tag, 8-bit name and 16-bit labels ids.
pub fn decode_binary_analyzer_interpretations(group: RawInterpsGroup<'_>) -> (r: Result<Vec<BinaryAnalyzerInterpretation>>)
    ensures
        r is Ok <==> analyzer_group_records(group.data@) is Some,
        r matches Ok(v) ==> v@.map_values(|i: BinaryAnalyzerInterpretation| binary_record_of(i))
            == analyzer_group_records(group.data@)->0,
        r matches Ok(v) ==> forall|i: int| 0 <= i < v@.len() ==> (#[trigger] v@[i]).wf()
            && 0 <= v@[i].tag_id < 65536 && 0 <= v@[i].name_id < 256 && 0 <= v@[i].labels_id < 65536,
        r matches Err(e) ==> e is InvalidDictionary,
{
    validate_min_len(group.data, 1, "analyzer interpretations compression byte")?;
    let data = group.data;
    let ghost s = data@;
    let compression_byte = data[0];
    let mut cursor: usize = 1;
    if !orth_case_patterns_encoded_in_compression_byte(compression_byte) {
        let patterns_num = read_u8(data, &mut cursor, "orth case patterns count")?;
        let mut p: u8 = 0;
        while p < patterns_num
            invariant
                p <= patterns_num,
                s == data@,
                s == group.data@,
                s.len() >= 2,
                cursor <= s.len(),
                compression_byte == s[0],
                !(compression_byte & (ORTH_ONLY_LOWER | ORTH_ONLY_TITLE) != 0),
                patterns_num == s[1],
                skipped_patterns(s, 2, patterns_num as nat) == skipped_patterns(s, cursor as int, (patterns_num - p) as nat),
            decreases patterns_num - p,
        {
            let ghost before = cursor as int;
            match skip_case_pattern(data, &mut cursor) {
                Ok(()) => {},
                Err(e) => {
                    proof {
                        assert(skipped_patterns(s, before, (patterns_num - p) as nat) is None);
                        assert(skipped_patterns(s, 2, s[1] as nat) is None);
                        assert(!(compression_byte & (ORTH_ONLY_LOWER | ORTH_ONLY_TITLE) != 0));
                        assert(analyzer_group_records(s) is None);
                    }
                    return Err(e);
                },
            }
            p = p + 1;
        }
    }
    let ghost cb = compression_byte;
    let mut result: Vec<BinaryAnalyzerInterpretation> = Vec::new();
    proof {
        assert(analyzer_group_records(s) == analyzer_records(s, cursor as int, cb));
        if analyzer_records(s, cursor as int, cb) is Some {
            assert(Seq::<AnalyzerRecord>::empty() + analyzer_records(s, cursor as int, cb)->0
                =~= analyzer_records(s, cursor as int, cb)->0);
        }
    }
    while cursor < data.len()
        invariant
            s == data@,
            s == group.data@,
            cb == compression_byte,
            cursor <= data@.len(),
            forall|i: int| 0 <= i < result@.len() ==> (#[trigger] result@[i]).wf()
                && 0 <= result@[i].tag_id < 65536 && 0 <= result@[i].name_id < 256 && 0 <= result@[i].labels_id < 65536,
            analyzer_records(s, cursor as int, cb) is None ==> analyzer_group_records(s) is None,
            analyzer_records(s, cursor as int, cb) is Some ==> analyzer_group_records(s)
                == Some(result@.map_values(|i: BinaryAnalyzerInterpretation| binary_record_of(i))
                    + analyzer_records(s, cursor as int, cb)->0),
        decreases data@.len() - cursor,
    {
        let ghost start = cursor as int;
        let ghost done = result@.map_values(|i: BinaryAnalyzerInterpretation| binary_record_of(i));
        match decode_analyzer_record(data, &mut cursor, compression_byte) {
            Ok(item) => {
                result.push(item);
                proof {
                    let now = result@.map_values(|i: BinaryAnalyzerInterpretation| binary_record_of(i));
                    assert(now =~= done.push(binary_record_of(item)));
                    if analyzer_records(s, cursor as int, cb) is Some {
                        let rest = analyzer_records(s, cursor as int, cb)->0;
                        assert(analyzer_records(s, start, cb) == Some(seq![binary_record_of(item)] + rest));
                        assert(done + (seq![binary_record_of(item)] + rest) =~= now + rest);
                    }
                }
            },
            Err(e) => {
                proof {
                    assert(analyzer_records(s, start, cb) is None);
                }
                return Err(e);
            },
        }
    }
    proof {
        assert(result@.map_values(|i: BinaryAnalyzerInterpretation| binary_record_of(i)) + Seq::<AnalyzerRecord>::empty()
            =~= result@.map_values(|i: BinaryAnalyzerInterpretation| binary_record_of(i)));
    }
    Ok(result)
}

/// The public form of a decoded interpretation says what its record says.
proof fn lemma_public_matches(i: BinaryAnalyzerInterpretation, e: EncodedAnalyzerInterpretation)
    requires
        i.wf(),
        e.form.prefix_to_cut == i.form.prefix_to_cut,
        e.form.suffix_to_cut == i.form.suffix_to_cut,
        e.form.suffix_to_add@ == i.form.suffix_to_add@,
        e.form.prefix_to_add@ == Seq::<char>::empty(),
        forall|j: int| 0 <= j < e.form.case_pattern@.len() ==> #[trigger] e.form.case_pattern@[j] == i.form.case_pattern.spec_upper_at(j),
        forall|j: int| j >= e.form.case_pattern@.len() ==> !i.form.case_pattern.spec_upper_at(j),
        e.form.case_pattern@.len() > 0 ==> e.form.case_pattern@[e.form.case_pattern@.len() - 1],
        forall|j: int| 0 <= j < e.orth_case_pattern@.len() ==> #[trigger] e.orth_case_pattern@[j] == i.orth_case_pattern.spec_upper_at(j),
        forall|j: int| j >= e.orth_case_pattern@.len() ==> !i.orth_case_pattern.spec_upper_at(j),
        e.orth_case_pattern@.len() > 0 ==> e.orth_case_pattern@[e.orth_case_pattern@.len() - 1],
        e.tag_id == i.tag_id && e.name_id == i.name_id && e.labels_id == i.labels_id,
    ensures
        public_matches(e, binary_record_of(i)),
{
    assert forall|j: int| #[trigger] view_upper_at(pattern_view(i.form.case_pattern), j) == i.form.case_pattern.spec_upper_at(j) by {}
    assert forall|j: int| #[trigger] view_upper_at(pattern_view(i.orth_case_pattern), j) == i.orth_case_pattern.spec_upper_at(j) by {}
}

/// Decodes the analyzer interpretations of a group, with flag patterns.
pub fn decode_analyzer_interpretations(group: RawInterpsGroup<'_>) -> (r: Result<Vec<EncodedAnalyzerInterpretation>>)
    ensures
        r is Ok <==> analyzer_group_records(group.data@) is Some,
        r matches Ok(v) ==> v@.len() == analyzer_group_records(group.data@)->0.len()
            && forall|i: int| 0 <= i < v@.len() ==> #[trigger] public_matches(v@[i], analyzer_group_records(group.data@)->0[i]),
        r matches Ok(v) ==> forall|i: int| 0 <= i < v@.len() ==>
            0 <= (#[trigger] v@[i]).tag_id < 65536 && 0 <= v@[i].name_id < 256 && 0 <= v@[i].labels_id < 65536,
        group.data@.len() == 0 ==> r is Err,
        r matches Err(e) ==> e is InvalidDictionary,
{
    let decoded = decode_binary_analyzer_interpretations(group)?;
    let ghost d = decoded@;
    let ghost n = d.len();
    let ghost recs = analyzer_group_records(group.data@)->0;
    let mut rest = decoded;
    let mut reversed: Vec<BinaryAnalyzerInterpretation> = Vec::new();
    while rest.len() > 0
        invariant
            rest@ == d.take(rest@.len() as int),
            rest@.len() + reversed@.len() == n,
            n == d.len(),
            forall|k: int| 0 <= k < reversed@.len() ==> #[trigger] reversed@[k] == d[n - 1 - k],
        decreases rest@.len(),
    {
        let ghost m = rest@.len();
        let last = rest.pop().unwrap();
        assert(last == d[m - 1]);
        reversed.push(last);
        assert(rest@ =~= d.take(rest@.len() as int));
    }
    let mut out: Vec<EncodedAnalyzerInterpretation> = Vec::new();
    while reversed.len() > 0
        invariant
            reversed@.len() + out@.len() == n,
            n == d.len(),
            d.map_values(|i: BinaryAnalyzerInterpretation| binary_record_of(i)) == recs,
            forall|i: int| 0 <= i < n ==> (#[trigger] d[i]).wf()
                && 0 <= d[i].tag_id < 65536 && 0 <= d[i].name_id < 256 && 0 <= d[i].labels_id < 65536,
            forall|k: int| 0 <= k < reversed@.len() ==> #[trigger] reversed@[k] == d[n - 1 - k],
            forall|k: int| 0 <= k < out@.len() ==> #[trigger] public_matches(out@[k], recs[k]),
            forall|k: int| 0 <= k < out@.len() ==>
                0 <= (#[trigger] out@[k]).tag_id < 65536 && 0 <= out@[k].name_id < 256 && 0 <= out@[k].labels_id < 65536,
        decreases reversed@.len(),
    {
        let ghost k = out@.len();
        let last = reversed.pop().unwrap();
        assert(last == d[k as int]);
        let public = last.into_public();
        proof {
            lemma_public_matches(last, public);
            assert(recs[k as int] == binary_record_of(d[k as int]));
        }
        out.push(public);
    }
    Ok(out)
}

/// Every group of the payload holds well-formed analyzer records.
pub open spec fn analyzer_groups_ok(payload: Seq<u8>) -> bool {
    &&& group_frames(payload, 0) is Some
    &&& forall|i: int| 0 <= i < group_frames(payload, 0)->0.len()
        ==> #[trigger] analyzer_group_records(group_bytes(payload, group_frames(payload, 0)->0, i)) is Some
}

/// The groups are the payload's groups, each with its segment type and its
/// records decoded.
pub open spec fn analyzer_groups_decoded(payload: Seq<u8>, g: Seq<EncodedAnalyzerInterpsGroup>) -> bool {
    &&& g.len() == group_frames(payload, 0)->0.len()
    &&& forall|i: int| 0 <= i < g.len() ==> (#[trigger] g[i]).segment_type == group_frames(payload, 0)->0[i].0
        && g[i].interpretations@.len()
            == analyzer_group_records(group_bytes(payload, group_frames(payload, 0)->0, i))->0.len()
        && forall|j: int| 0 <= j < g[i].interpretations@.len() ==> #[trigger] public_matches(
            g[i].interpretations@[j],
            analyzer_group_records(group_bytes(payload, group_frames(payload, 0)->0, i))->0[j])
}

/// Decodes every group of an analyzer payload.
pub fn decode_analyzer_interps_groups(payload: &[u8]) -> (r: Result<Vec<EncodedAnalyzerInterpsGroup>>)
    ensures
        r is Ok <==> analyzer_groups_ok(payload@),
        r matches Ok(g) ==> analyzer_groups_decoded(payload@, g@),
        r matches Err(e) ==> e is InvalidDictionary,
{
    let groups = read_raw_interps_groups(payload)?;
    let ghost frames = group_frames(payload@, 0)->0;
    let mut out: Vec<EncodedAnalyzerInterpsGroup> = Vec::new();
    let mut i: usize = 0;
    while i < groups.len()
        invariant
            i <= groups@.len(),
            out@.len() == i,
            group_frames(payload@, 0) is Some,
            frames == group_frames(payload@, 0)->0,
            groups_match(payload@, groups@, frames),
            forall|k: int| 0 <= k < i ==> (#[trigger] out@[k]).segment_type == groups@[k].segment_type
                && analyzer_group_records(group_bytes(payload@, frames, k)) is Some
                && out@[k].interpretations@.len() == analyzer_group_records(group_bytes(payload@, frames, k))->0.len()
                && forall|j: int| 0 <= j < out@[k].interpretations@.len() ==> #[trigger] public_matches(
                    out@[k].interpretations@[j], analyzer_group_records(group_bytes(payload@, frames, k))->0[j]),
        decreases groups@.len() - i,
    {
        assert(groups@[i as int].data@ == group_bytes(payload@, frames, i as int));
        let interpretations = match decode_analyzer_interpretations(groups[i]) {
            Ok(v) => v,
            Err(e) => {
                proof {
                    assert(analyzer_group_records(group_bytes(payload@, frames, i as int)) is None);
                    assert(!analyzer_groups_ok(payload@));
                }
                return Err(e);
            },
        };
        out.push(EncodedAnalyzerInterpsGroup { segment_type: groups[i].segment_type, interpretations });
        i = i + 1;
    }
    proof {
        assert forall|k: int| 0 <= k < frames.len()
            implies #[trigger] analyzer_group_records(group_bytes(payload@, frames, k)) is Some by {
            assert(out@[k].segment_type == groups@[k].segment_type);
        }
    }
    Ok(out)
}

/// A generator record: homonym id, prefix to add, suffix cut, suffix to
/// add, and tag, name and labels ids.
pub type GeneratorRecord = (Seq<char>, Seq<char>, u8, Seq<char>, int, int, int);

/// What a decoded generator interpretation says, as a record.
pub open spec fn generator_record_of(i: EncodedGeneratorInterpretation) -> GeneratorRecord {
    (i.homonym_id@, i.form.prefix_to_add@, i.form.suffix_to_cut, i.form.suffix_to_add@,
        i.tag_id as int, i.name_id as int, i.labels_id as int)
}

/// The generator record at `c`: three zero-terminated strings around the
/// suffix cut byte, then a 16-bit tag, an 8-bit name and a 16-bit labels
/// id; the record and the offset after it.
pub open spec fn generator_record_at(s: Seq<u8>, c: int) -> Option<(GeneratorRecord, int)> {
    match c_string_at(s, c) {
        None => None,
        Some((homonym, c1)) => match c_string_at(s, c1) {
            None => None,
            Some((prefix, c2)) => if c2 + 1 > s.len() {
                None
            } else {
                match c_string_at(s, c2 + 1) {
                    None => None,
                    Some((suffix, c3)) => if c3 + 5 > s.len() {
                        None
                    } else {
                        Some(((homonym, prefix, s[c2], suffix, be_u16(s, c3), s[c3 + 2] as int, be_u16(s, c3 + 3)), c3 + 5))
                    },
                }
            },
        },
    }
}

/// The generator records from `c` to the end of the data, `None` when one
/// of them is cut short or malformed.
pub open spec fn generator_records(s: Seq<u8>, c: int) -> Option<Seq<GeneratorRecord>>
    decreases s.len() - c,
{
    if c >= s.len() {
        Some(Seq::empty())
    } else {
        match generator_record_at(s, c) {
            None => None,
            Some((record, next)) => if next <= c {
                None
            } else {
                match generator_records(s, next) {
                    None => None,
                    Some(rest) => Some(seq![record] + rest),
                }
            },
        }
    }
}

/// Decodes the generator interpretations of a group: records of homonym
/// id, prefix to add, suffix cut, suffix to add, 16-bit tag, 8-bit name and
/// 16-bit labels ids.
pub fn decode_generator_interpretations(group: RawInterpsGroup<'_>) -> (r: Result<Vec<EncodedGeneratorInterpretation>>)
    ensures
        r is Ok <==> generator_records(group.data@, 0) is Some,
        r matches Ok(v) ==> v@.map_values(|i: EncodedGeneratorInterpretation| generator_record_of(i))
            == generator_records(group.data@, 0)->0,
        r matches Ok(v) ==> forall|i: int| 0 <= i < v@.len() ==> (#[trigger] v@[i]).form.prefix_to_cut == 0
            && v@[i].form.case_pattern@.len() == 0
            && 0 <= v@[i].tag_id < 65536 && 0 <= v@[i].name_id < 256 && 0 <= v@[i].labels_id < 65536,
        r matches Err(e) ==> e is InvalidDictionary,
{
    let data = group.data;
    let ghost s = data@;
    let mut cursor: usize = 0;
    let mut result: Vec<EncodedGeneratorInterpretation> = Vec::new();
    proof {
        if generator_records(s, 0) is Some {
            assert(Seq::<GeneratorRecord>::empty() + generator_records(s, 0)->0 =~= generator_records(s, 0)->0);
        }
    }
    while cursor < data.len()
        invariant
            s == data@,
            s == group.data@,
            cursor <= data@.len(),
            forall|i: int| 0 <= i < result@.len() ==> (#[trigger] result@[i]).form.prefix_to_cut == 0
                && result@[i].form.case_pattern@.len() == 0
                && 0 <= result@[i].tag_id < 65536 && 0 <= result@[i].name_id < 256 && 0 <= result@[i].labels_id < 65536,
            generator_records(s, cursor as int) is None ==> generator_records(s, 0) is None,
            generator_records(s, cursor as int) is Some ==> generator_records(s, 0)
                == Some(result@.map_values(|i: EncodedGeneratorInterpretation| generator_record_of(i))
                    + generator_records(s, cursor as int)->0),
        decreases data@.len() - cursor,
    {
        let ghost start = cursor as int;
        let ghost done = result@.map_values(|i: EncodedGeneratorInterpretation| generator_record_of(i));
        match decode_generator_record(data, &mut cursor) {
            Ok(item) => {
                proof {
                    assert(generator_record_at(s, start) == Some((generator_record_of(item), cursor as int)));
                }
                result.push(item);
                proof {
                    let now = result@.map_values(|i: EncodedGeneratorInterpretation| generator_record_of(i));
                    assert(now =~= done.push(generator_record_of(item)));
                    if generator_records(s, cursor as int) is Some {
                        let rest = generator_records(s, cursor as int)->0;
                        assert(generator_records(s, start) == Some(seq![generator_record_of(item)] + rest));
                        assert(done + (seq![generator_record_of(item)] + rest) =~= now + rest);
                    }
                }
            },
            Err(e) => {
                proof {
                    assert(generator_records(s, start) is None);
                }
                return Err(e);
            },
        }
    }
    proof {
        assert(result@.map_values(|i: EncodedGeneratorInterpretation| generator_record_of(i)) + Seq::<GeneratorRecord>::empty()
            =~= result@.map_values(|i: EncodedGeneratorInterpretation| generator_record_of(i)));
    }
    Ok(result)
}

/// Reads one generator record at the cursor and moves past it.
fn decode_generator_record(data: &[u8], cursor: &mut usize) -> (r: Result<EncodedGeneratorInterpretation>)
    ensures
        r is Ok <==> generator_record_at(data@, *old(cursor) as int) is Some,
        r matches Ok(item) ==> generator_record_at(data@, *old(cursor) as int)
            == Some((generator_record_of(item), *final(cursor) as int)),
        r is Ok ==> *old(cursor) < *final(cursor) <= data@.len(),
        r matches Ok(item) ==> item.form.prefix_to_cut == 0 && item.form.case_pattern@.len() == 0
            && 0 <= item.tag_id < 65536 && 0 <= item.name_id < 256 && 0 <= item.labels_id < 65536,
        r matches Err(e) ==> e is InvalidDictionary,
{
    let ghost s = data@;
    let ghost start = *cursor as int;
    let homonym_id = read_c_string_from_slice(data, cursor, "homonym id")?;
    let ghost c1 = *cursor as int;
    proof { lemma_c_string_at(s, start, homonym_id@, c1); }
    let prefix_to_add = read_c_string_from_slice(data, cursor, "prefix to add")?;
    let ghost c2 = *cursor as int;
    proof { lemma_c_string_at(s, c1, prefix_to_add@, c2); }
    let suffix_to_cut = read_u8(data, cursor, "generator suffix cut")?;
    let suffix_to_add = read_c_string_from_slice(data, cursor, "suffix to add")?;
    let ghost c3 = *cursor as int;
    proof { lemma_c_string_at(s, c2 + 1, suffix_to_add@, c3); }
    let tag_id = read_u16(data, cursor, "generator tag id")? as i32;
    let name_id = read_u8(data, cursor, "generator name id")? as i32;
    let labels_id = read_u16(data, cursor, "generator labels id")? as i32;
    Ok(EncodedGeneratorInterpretation {
        homonym_id,
        form: EncodedForm {
            prefix_to_cut: 0,
            suffix_to_cut,
            suffix_to_add,
            case_pattern: Vec::new(),
            prefix_to_add,
        },
        tag_id,
        name_id,
        labels_id,
    })
}

/// The bytes of the `i`-th group of a payload.
pub open spec fn group_bytes(payload: Seq<u8>, frames: Seq<(u8, int, int)>, i: int) -> Seq<u8> {
    payload.subrange(frames[i].1, frames[i].2)
}

/// Every group of the payload holds well-formed generator records.
pub open spec fn generator_groups_ok(payload: Seq<u8>) -> bool {
    &&& group_frames(payload, 0) is Some
    &&& forall|i: int| 0 <= i < group_frames(payload, 0)->0.len()
        ==> #[trigger] generator_records(group_bytes(payload, group_frames(payload, 0)->0, i), 0) is Some
}

/// The groups are the payload's groups, each with its segment type and its
/// records decoded.
pub open spec fn generator_groups_decoded(payload: Seq<u8>, g: Seq<EncodedGeneratorInterpsGroup>) -> bool {
    &&& g.len() == group_frames(payload, 0)->0.len()
    &&& forall|i: int| 0 <= i < g.len() ==> (#[trigger] g[i]).segment_type == group_frames(payload, 0)->0[i].0
        && g[i].interpretations@.map_values(|x: EncodedGeneratorInterpretation| generator_record_of(x))
            == generator_records(group_bytes(payload, group_frames(payload, 0)->0, i), 0)->0
}

/// Decodes every group of a generator payload.
pub fn decode_generator_interps_groups(payload: &[u8]) -> (r: Result<Vec<EncodedGeneratorInterpsGroup>>)
    ensures
        r is Ok <==> generator_groups_ok(payload@),
        r matches Ok(g) ==> generator_groups_decoded(payload@, g@),
        r matches Err(e) ==> e is InvalidDictionary,
{
    let groups = read_raw_interps_groups(payload)?;
    let ghost frames = group_frames(payload@, 0)->0;
    let mut out: Vec<EncodedGeneratorInterpsGroup> = Vec::new();
    let mut i: usize = 0;
    while i < groups.len()
        invariant
            i <= groups@.len(),
            out@.len() == i,
            group_frames(payload@, 0) is Some,
            frames == group_frames(payload@, 0)->0,
            groups_match(payload@, groups@, frames),
            forall|k: int| 0 <= k < i ==> (#[trigger] out@[k]).segment_type == groups@[k].segment_type
                && generator_records(group_bytes(payload@, frames, k), 0) is Some
                && out@[k].interpretations@.map_values(|x: EncodedGeneratorInterpretation| generator_record_of(x))
                    == generator_records(group_bytes(payload@, frames, k), 0)->0,
        decreases groups@.len() - i,
    {
        assert(groups@[i as int].data@ == group_bytes(payload@, frames, i as int));
        let interpretations = match decode_generator_interpretations(groups[i]) {
            Ok(v) => v,
            Err(e) => {
                proof {
                    assert(generator_records(group_bytes(payload@, frames, i as int), 0) is None);
                    assert(!generator_groups_ok(payload@));
                }
                return Err(e);
            },
        };
        out.push(EncodedGeneratorInterpsGroup { segment_type: groups[i].segment_type, interpretations });
        i = i + 1;
    }
    proof {
        assert forall|k: int| 0 <= k < frames.len()
            implies #[trigger] generator_records(group_bytes(payload@, frames, k), 0) is Some by {
            assert(out@[k].segment_type == groups@[k].segment_type);
        }
    }
    Ok(out)
}

} // verus!
