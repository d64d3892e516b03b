//! Letter case: the lowercased form of a word used for dictionary lookup
//! with its map back to the original text, the orthographic case patterns
//! of interpretations, and the decoding of a lemma from a word form.
use vstd::prelude::*;
use vstd::utf8::*;
use crate::error::{Error, Result};
use crate::text::{
    chars_of, is_ascii_char, lower_char, lower_of, owned, push_char, push_str, string_from_char_range,
    string_from_chars, upper_chars, upper_of,
};
use super::read::{dict_error, dict_error_nums};

verus! {

/// A character counts as lowercase when lowercasing leaves it unchanged.
pub open spec fn lower_equiv(c: char) -> bool {
    lower_of(c) == c
}

/// Whether lowercasing leaves the character unchanged.
pub fn char_lowercases_to_self(ch: char) -> (r: bool)
    ensures
        r == lower_equiv(ch),
{
    lower_char(ch) == ch
}

/// Whether the character counts as lowercase for case patterns.
pub fn char_is_lowercase_equivalent(ch: char) -> (r: bool)
    ensures
        r == lower_equiv(ch),
{
    lower_char(ch) == ch
}

/// The number of bytes of the UTF-8 encoding of a character.
pub fn char_utf8_len(c: char) -> (n: usize)
    ensures
        n == encode_scalar(c as u32).len(),
        1 <= n <= 4,
{
    let v = c as u32;
    if v <= 0x7F {
        1
    } else if v <= 0x7FF {
        2
    } else if v <= 0xFFFF {
        3
    } else {
        4
    }
}

/// The encoding of a concatenation is the concatenation of the encodings.
pub proof fn lemma_encode_utf8_append(a: Seq<char>, b: Seq<char>)
    ensures
        encode_utf8(a + b) == encode_utf8(a) + encode_utf8(b),
    decreases a.len(),
{
    if a.len() == 0 {
        assert(a + b =~= b);
    } else {
        assert((a + b).drop_first() =~= a.drop_first() + b);
        lemma_encode_utf8_append(a.drop_first(), b);
    }
}

proof fn lemma_encode_take_step(s: Seq<char>, i: int)
    requires
        0 <= i < s.len(),
    ensures
        encode_utf8(s.take(i + 1)).len() == encode_utf8(s.take(i)).len() + encode_scalar(s[i] as u32).len(),
{
    assert(s.take(i + 1) =~= s.take(i) + seq![s[i]]);
    lemma_encode_utf8_append(s.take(i), seq![s[i]]);
    assert(seq![s[i]].drop_first() =~= Seq::<char>::empty());
    assert(encode_utf8(Seq::<char>::empty()) =~= Seq::<u8>::empty());
    assert(encode_utf8(seq![s[i]]) == encode_scalar(s[i] as u32) + encode_utf8(seq![s[i]].drop_first()));
    assert(encode_utf8(seq![s[i]]) =~= encode_scalar(s[i] as u32));
}

/// The byte offset, in the encoding of `s`, where character `i` starts.
pub open spec fn byte_offset(s: Seq<char>, i: int) -> int {
    encode_utf8(s.take(i)).len() as int
}

pub proof fn lemma_byte_offset_increasing(s: Seq<char>, i: int, j: int)
    requires
        0 <= i < j <= s.len(),
    ensures
        byte_offset(s, i) < byte_offset(s, j),
    decreases j - i,
{
    lemma_encode_take_step(s, j - 1);
    if i < j - 1 {
        lemma_byte_offset_increasing(s, i, j - 1);
    }
}

/// A word and its lowercased form for dictionary lookup, with the byte
/// offset where each lowercased character starts.
#[derive(Debug, Clone)]
pub struct NormalizedInput {
    original: Vec<char>,
    normalized: Vec<char>,
    text: String,
    bytes: Vec<u8>,
    offsets: Vec<usize>,
    original_offsets: Vec<usize>,
}

impl NormalizedInput {
    pub closed spec fn original_view(&self) -> Seq<char> {
        self.original@
    }

    pub closed spec fn normalized_view(&self) -> Seq<char> {
        self.normalized@
    }

    pub closed spec fn wf(&self) -> bool {
        &&& self.text@ == self.normalized@
        &&& self.normalized@.len() == self.original@.len()
        &&& forall|i: int| 0 <= i < self.original@.len() ==> #[trigger] self.normalized@[i] == lower_of(self.original@[i])
        &&& self.bytes@ == encode_utf8(self.normalized@)
        &&& self.offsets@.len() == self.normalized@.len() + 1
        &&& forall|i: int| 0 <= i <= self.normalized@.len() ==> #[trigger] self.offsets@[i] == byte_offset(self.normalized@, i)
        &&& self.original_offsets@.len() == self.original@.len() + 1
        &&& forall|i: int| 0 <= i <= self.original@.len() ==> #[trigger] self.original_offsets@[i] == byte_offset(self.original@, i)
    }

    /// The lowercased word has a character for each original one, and its
    /// byte length is the offset past its last character.
    pub proof fn lemma_lengths(&self)
        requires
            self.wf(),
        ensures
            self.normalized_view().len() == self.original_view().len(),
            self.byte_len_spec() == byte_offset(self.normalized_view(), self.normalized_view().len() as int),
    {
        assert(self.normalized@.take(self.normalized@.len() as int) =~= self.normalized@);
    }

    /// The lowercased word.
    pub fn as_str(&self) -> (s: &str)
        requires
            self.wf(),
        ensures
            s@ == self.normalized_view(),
    {
        self.text.as_str()
    }

    /// The lowercased word, UTF-8 encoded.
    pub fn as_bytes(&self) -> (b: &[u8])
        requires
            self.wf(),
        ensures
            b@ == encode_utf8(self.normalized_view()),
            b@.len() == self.byte_len_spec(),
    {
        self.bytes.as_slice()
    }

    pub closed spec fn byte_len_spec(&self) -> int {
        self.bytes@.len() as int
    }

    /// The number of bytes of the lowercased word.
    pub fn byte_len(&self) -> (n: usize)
        requires
            self.wf(),
        ensures
            n == encode_utf8(self.normalized_view()).len(),
            n == self.byte_len_spec(),
    {
        self.bytes.len()
    }

    /// The index of the character that starts at byte `offset` of the
    /// lowercased word (the word's length for its end).
    pub fn char_index_at(&self, offset: usize) -> (r: Option<usize>)
        requires
            self.wf(),
        ensures
            r matches Some(i) ==> i <= self.normalized_view().len()
                && byte_offset(self.normalized_view(), i as int) == offset,
            r is None ==> forall|i: int| 0 <= i <= self.normalized_view().len()
                ==> byte_offset(self.normalized_view(), i) != offset,
    {
        let mut lo: usize = 0;
        let mut hi: usize = self.offsets.len();
        while lo < hi
            invariant
                self.wf(),
                0 <= lo <= hi <= self.offsets@.len(),
                forall|i: int| 0 <= i < lo ==> self.offsets@[i] < offset,
                forall|i: int| hi <= i < self.offsets@.len() ==> self.offsets@[i] > offset,
            decreases hi - lo,
        {
            let mid = lo + (hi - lo) / 2;
            if self.offsets[mid] == offset {
                return Some(mid);
            } else if self.offsets[mid] < offset {
                proof {
                    assert forall|i: int| 0 <= i < mid + 1 implies self.offsets@[i] < offset by {
                        if i < mid {
                            lemma_byte_offset_increasing(self.normalized@, i, mid as int);
                        }
                    }
                }
                lo = mid + 1;
            } else {
                proof {
                    assert forall|i: int| mid <= i < self.offsets@.len() implies self.offsets@[i] > offset by {
                        if i > mid {
                            lemma_byte_offset_increasing(self.normalized@, mid as int, i);
                        }
                    }
                }
                hi = mid;
            }
        }
        proof {
            assert forall|i: int| 0 <= i <= self.normalized_view().len() implies
                byte_offset(self.normalized_view(), i) != offset by {
                assert(self.offsets@[i] == byte_offset(self.normalized@, i));
            }
        }
        None
    }

    /// The original text of the lowercased bytes `start..end`, with its
    /// byte bounds in the original, when both lie on character boundaries.
    pub fn original_span(&self, start: usize, end: usize) -> (r: Option<(String, usize, usize)>)
        requires
            self.wf(),
        ensures
            r is Some <==> exists|a: int, b: int| 0 <= a <= b <= self.normalized_view().len()
                && byte_offset(self.normalized_view(), a) == start
                && byte_offset(self.normalized_view(), b) == end,
            r matches Some((text, x, y)) ==> exists|a: int, b: int| 0 <= a <= b <= self.original_view().len()
                && byte_offset(self.normalized_view(), a) == start
                && byte_offset(self.normalized_view(), b) == end
                && text@ == self.original_view().subrange(a, b)
                && x == byte_offset(self.original_view(), a)
                && y == byte_offset(self.original_view(), b),
    {
        let a = match self.char_index_at(start) {
            Some(a) => a,
            None => {
                return None;
            },
        };
        let b = match self.char_index_at(end) {
            Some(b) => b,
            None => {
                return None;
            },
        };
        if a > b {
            proof {
                assert forall|x: int, y: int| 0 <= x <= y <= self.normalized_view().len()
                    && byte_offset(self.normalized_view(), x) == start
                    && byte_offset(self.normalized_view(), y) == end implies false by {
                    if x < a {
                        lemma_byte_offset_increasing(self.normalized@, x, a as int);
                    } else if a < x {
                        lemma_byte_offset_increasing(self.normalized@, a as int, x);
                    }
                    if y < b {
                        lemma_byte_offset_increasing(self.normalized@, y, b as int);
                    } else if b < y {
                        lemma_byte_offset_increasing(self.normalized@, b as int, y);
                    }
                }
            }
            return None;
        }
        let text = string_from_char_range(self.original.as_slice(), a, b);
        let x = self.original_offsets[a];
        let y = self.original_offsets[b];
        proof {
            let ai = a as int;
            let bi = b as int;
            assert(self.original_offsets@[ai] == byte_offset(self.original@, ai));
            assert(self.original_offsets@[bi] == byte_offset(self.original@, bi));
            assert(0 <= ai <= bi <= self.original_view().len()
                && byte_offset(self.normalized_view(), ai) == start
                && byte_offset(self.normalized_view(), bi) == end
                && text@ == self.original_view().subrange(ai, bi)
                && x == byte_offset(self.original_view(), ai)
                && y == byte_offset(self.original_view(), bi));
        }
        Some((text, x, y))
    }
}

/// Each character in its one-codepoint lowercase form.
pub open spec fn lowered(t: Seq<char>) -> Seq<char> {
    t.map_values(|c: char| lower_of(c))
}

/// Lowercases a word for dictionary lookup, one character to one character,
/// keeping where each lowercased character starts in the encoding.
pub fn lowercase_with_original_boundaries(text: &str) -> (r: Option<NormalizedInput>)
    ensures
        r matches Some(n) ==> n.wf() && n.original_view() == text@ && n.normalized_view() == lowered(text@),
        4 * text@.len() < usize::MAX ==> r is Some,
{
    let original = chars_of(text);
    let mut normalized: Vec<char> = Vec::new();
    let mut offsets: Vec<usize> = Vec::new();
    offsets.push(0);
    let mut total: usize = 0;
    let mut original_offsets: Vec<usize> = Vec::new();
    original_offsets.push(0);
    let mut original_total: usize = 0;
    let mut i: usize = 0;
    proof {
        assert(original@.take(0) =~= Seq::<char>::empty());
        assert(normalized@ =~= Seq::<char>::empty());
    }
    while i < original.len()
        invariant
            original@ == text@,
            i <= original@.len(),
            normalized@.len() == i,
            forall|k: int| 0 <= k < i ==> #[trigger] normalized@[k] == lower_of(original@[k]),
            offsets@.len() == i + 1,
            forall|k: int| 0 <= k <= i ==> #[trigger] offsets@[k] == byte_offset(normalized@, k),
            total == byte_offset(normalized@, i as int),
            normalized@ == text@.map_values(|c: char| lower_of(c)).take(i as int),
            original_offsets@.len() == i + 1,
            forall|k: int| 0 <= k <= i ==> #[trigger] original_offsets@[k] == byte_offset(original@, k),
            original_total == byte_offset(original@, i as int),
            total <= 4 * i,
            original_total <= 4 * i,
        decreases original@.len() - i,
    {
        let lowered = lower_char(original[i]);
        let ghost before = normalized@;
        normalized.push(lowered);
        proof {
            let full = text@.map_values(|c: char| lower_of(c));
            assert(normalized@ =~= full.take(i + 1));
            assert(normalized@.take(i as int) =~= before);
            lemma_encode_take_step(normalized@, i as int);
            assert(normalized@.take(i + 1) =~= normalized@);
            assert(before.take(i as int) =~= before);
            assert forall|k: int| 0 <= k <= i implies byte_offset(normalized@, k) == byte_offset(before, k) by {
                assert(normalized@.take(k) =~= before.take(k));
            }
        }
        let n = char_utf8_len(lowered);
        if total > usize::MAX - 4 {
            return None;
        }
        total = total + n;
        offsets.push(total);
        let m = char_utf8_len(original[i]);
        if original_total > usize::MAX - 4 {
            return None;
        }
        proof {
            lemma_encode_take_step(original@, i as int);
        }
        original_total = original_total + m;
        original_offsets.push(original_total);
        i = i + 1;
    }
    let s = string_from_chars(normalized.as_slice());
    let bytes_slice = s.as_str().as_bytes();
    let mut bytes: Vec<u8> = Vec::new();
    let mut k: usize = 0;
    while k < bytes_slice.len()
        invariant
            k <= bytes_slice@.len(),
            bytes@ == bytes_slice@.take(k as int),
        decreases bytes_slice@.len() - k,
    {
        bytes.push(bytes_slice[k]);
        k = k + 1;
        assert(bytes@ =~= bytes_slice@.take(k as int));
    }
    assert(bytes@ =~= bytes_slice@);
    Some(NormalizedInput { original, normalized, text: s, bytes, offsets, original_offsets })
}

/// Whether the orthographic case pattern accepts the word: each position
/// the pattern marks must hold a character that is not lowercase.
pub open spec fn flags_match(orth: Seq<char>, pattern: Seq<bool>) -> bool {
    pattern.len() == 0 || (pattern.len() <= orth.len()
        && forall|i: int| 0 <= i < pattern.len() ==> #[trigger] pattern[i] ==> !lower_equiv(orth[i]))
}

pub fn case_pattern_matches_orth(orth: &str, case_pattern: &[bool]) -> (r: bool)
    ensures
        r == flags_match(orth@, case_pattern@),
{
    if case_pattern.len() == 0 {
        return true;
    }
    let chars = chars_of(orth);
    if chars.len() < case_pattern.len() {
        return false;
    }
    let mut i: usize = 0;
    while i < case_pattern.len()
        invariant
            chars@ == orth@,
            case_pattern@.len() <= chars@.len(),
            i <= case_pattern@.len(),
            forall|k: int| 0 <= k < i ==> #[trigger] case_pattern@[k] ==> !lower_equiv(orth@[k]),
        decreases case_pattern@.len() - i,
    {
        if case_pattern[i] && char_is_lowercase_equivalent(chars[i]) {
            return false;
        }
        i = i + 1;
    }
    true
}

/// The word without its last `chars_to_cut` characters; `InvalidDictionary`
/// when it has fewer.
pub fn drop_suffix_chars(value: &str, chars_to_cut: usize) -> (r: Result<String>)
    ensures
        r is Ok <==> chars_to_cut <= value@.len(),
        r matches Ok(s) ==> s@ == value@.take(value@.len() - chars_to_cut),
        r matches Err(e) ==> e is InvalidDictionary,
{
    let chars = chars_of(value);
    if chars_to_cut > chars.len() {
        return Err(dict_error_nums("cannot cut ", chars_to_cut as u64, " codepoints from ", chars.len() as u64, "-codepoint form"));
    }
    Ok(string_from_char_range(chars.as_slice(), 0, chars.len() - chars_to_cut))
}

/// What the lemma decoder reads of an encoded form.
pub trait AnalyzerFormView {
    spec fn spec_prefix_to_cut(&self) -> u8;

    spec fn spec_suffix_to_cut(&self) -> u8;

    spec fn spec_suffix_to_add(&self) -> Seq<char>;

    spec fn spec_pattern_empty(&self) -> bool;

    spec fn spec_upper_at(&self, index: int) -> bool;

    proof fn lemma_empty_pattern(&self, index: int)
        requires
            self.spec_pattern_empty(),
        ensures
            !self.spec_upper_at(index),
    ;

    fn prefix_to_cut(&self) -> (r: u8)
        ensures
            r == self.spec_prefix_to_cut(),
    ;

    fn suffix_to_cut(&self) -> (r: u8)
        ensures
            r == self.spec_suffix_to_cut(),
    ;

    fn suffix_to_add(&self) -> (r: &str)
        ensures
            r@ == self.spec_suffix_to_add(),
    ;

    fn case_pattern_is_empty(&self) -> (r: bool)
        ensures
            r == self.spec_pattern_empty(),
    ;

    fn case_pattern_is_uppercase_at(&self, index: usize) -> (r: bool)
        ensures
            r == self.spec_upper_at(index as int),
    ;
}

/// The lemma characters for one word character: its lowercase form, or the
/// uppercase form of that where the pattern asks for an uppercase letter.
pub open spec fn lemma_char(c: char, upper: bool) -> Seq<char> {
    if upper {
        upper_of(lower_of(c))
    } else {
        seq![lower_of(c)]
    }
}

/// The lemma characters for word characters `start..end`.
pub open spec fn lemma_range<F: AnalyzerFormView>(orth: Seq<char>, start: int, end: int, form: F) -> Seq<char>
    decreases end - start,
{
    if end <= start {
        Seq::empty()
    } else {
        lemma_range(orth, start, end - 1, form) + lemma_char(orth[end - 1], form.spec_upper_at(end - 1))
    }
}

/// The lemma characters for word characters `start..end`, where `upper`
/// says which lemma positions are capitalised.
pub open spec fn lemma_range_by(orth: Seq<char>, start: int, end: int, upper: spec_fn(int) -> bool) -> Seq<char>
    decreases end - start,
{
    if end <= start {
        Seq::empty()
    } else {
        lemma_range_by(orth, start, end - 1, upper) + lemma_char(orth[end - 1], upper(end - 1))
    }
}

/// A form's lemma characters depend on its pattern only through which
/// positions it capitalises.
pub proof fn lemma_range_by_pattern<F: AnalyzerFormView>(orth: Seq<char>, start: int, end: int, form: F, upper: spec_fn(int) -> bool)
    requires
        forall|i: int| start <= i < end ==> form.spec_upper_at(i) == upper(i),
    ensures
        lemma_range(orth, start, end, form) == lemma_range_by(orth, start, end, upper),
    decreases end - start,
{
    if end > start {
        lemma_range_by_pattern(orth, start, end - 1, form, upper);
    }
}

/// The decoded lemma of characters `start..end`, followed by the form's
/// suffix when `append_suffix` is set; `None` when the range is not within
/// the word.
pub open spec fn decoded_range<F: AnalyzerFormView>(orth: Seq<char>, start: int, end: int, form: F, append_suffix: bool) -> Option<Seq<char>> {
    if start <= end <= orth.len() {
        Some(lemma_range(orth, start, end, form) + if append_suffix { form.spec_suffix_to_add() } else { Seq::empty() })
    } else {
        None
    }
}

/// The lemma of a word whose last `non_prefix` of `normalized_len`
/// characters belong to the form: cut the form's prefix and suffix, recase,
/// and append the form's suffix.
pub open spec fn lemma_with_context<F: AnalyzerFormView>(orth: Seq<char>, non_prefix: int, normalized_len: int, form: F) -> Option<Seq<char>> {
    if non_prefix > normalized_len || form.spec_suffix_to_cut() > normalized_len {
        None
    } else {
        decoded_range(orth, normalized_len - non_prefix + form.spec_prefix_to_cut(),
            normalized_len - form.spec_suffix_to_cut(), form, true)
    }
}

/// The lemma decoded from a whole word.
pub open spec fn analyzer_lemma<F: AnalyzerFormView>(orth: Seq<char>, form: F) -> Option<Seq<char>> {
    lemma_with_context(orth, orth.len() as int, orth.len() as int, form)
}

proof fn lemma_range_identity<F: AnalyzerFormView>(orth: Seq<char>, end: int, form: F)
    requires
        0 <= end <= orth.len(),
        form.spec_pattern_empty(),
        forall|i: int| 0 <= i < orth.len() ==> lower_equiv(#[trigger] orth[i]),
    ensures
        lemma_range(orth, 0, end, form) == orth.take(end),
    decreases end,
{
    if end > 0 {
        lemma_range_identity(orth, end - 1, form);
        form.lemma_empty_pattern(end - 1);
        assert(orth.take(end) =~= orth.take(end - 1) + seq![orth[end - 1]]);
    }
}

/// Decodes the lemma of characters `start..end` of the word.
pub fn decode_analyzer_lemma_range<F: AnalyzerFormView>(orth: &str, start: usize, end: usize, form: &F, append_suffix: bool) -> (r: Result<String>)
    ensures
        r is Ok <==> decoded_range(orth@, start as int, end as int, *form, append_suffix) is Some,
        r matches Ok(s) ==> decoded_range(orth@, start as int, end as int, *form, append_suffix) == Some(s@),
        r matches Err(e) ==> e is InvalidDictionary,
{
    if start > end {
        return Err(dict_error_nums("prefix cut ", start as u64, " exceeds lemma end ", end as u64, ""));
    }
    let chars = chars_of(orth);
    if end > chars.len() {
        return Err(dict_error_nums("lemma end ", end as u64, " exceeds normalized ", chars.len() as u64, "-codepoint orth"));
    }
    let mut lemma = String::new();
    let mut index: usize = start;
    while index < end
        invariant
            chars@ == orth@,
            start <= index <= end <= chars@.len(),
            lemma@ == lemma_range(orth@, start as int, index as int, *form),
        decreases end - index,
    {
        let lowered = lower_char(chars[index]);
        if form.case_pattern_is_uppercase_at(index) {
            let upper = upper_chars(lowered);
            let mut k: usize = 0;
            let ghost before = lemma@;
            while k < upper.len()
                invariant
                    k <= upper@.len(),
                    lemma@ == before + upper@.take(k as int),
                decreases upper@.len() - k,
            {
                push_char(&mut lemma, upper[k]);
                k = k + 1;
                assert(lemma@ =~= before + upper@.take(k as int));
            }
            assert(upper@.take(upper@.len() as int) =~= upper@);
        } else {
            push_char(&mut lemma, lowered);
        }
        index = index + 1;
    }
    if append_suffix {
        push_str(&mut lemma, form.suffix_to_add());
    } else {
        assert(lemma@ + Seq::<char>::empty() =~= lemma@);
    }
    Ok(lemma)
}

/// Decodes the lemma of a word whose last `non_prefix_codepoints_num` of
/// `normalized_len` characters belong to the form.
pub fn decode_analyzer_lemma_with_prefix_context_len<F: AnalyzerFormView>(orth: &str, non_prefix_codepoints_num: usize, normalized_len: usize, form: &F) -> (r: Result<String>)
    ensures
        r is Ok <==> lemma_with_context(orth@, non_prefix_codepoints_num as int, normalized_len as int, *form) is Some,
        r matches Ok(s) ==> lemma_with_context(orth@, non_prefix_codepoints_num as int, normalized_len as int, *form) == Some(s@),
        r matches Err(e) ==> e is InvalidDictionary,
{
    if non_prefix_codepoints_num > normalized_len {
        return Err(dict_error_nums("non-prefix codepoints ", non_prefix_codepoints_num as u64, " exceed ", normalized_len as u64, "-codepoint orth"));
    }
    let prefix_codepoints_num = normalized_len - non_prefix_codepoints_num;
    let cut = form.prefix_to_cut() as usize;
    if form.suffix_to_cut() as usize > normalized_len {
        return Err(dict_error_nums("cannot cut ", form.suffix_to_cut() as u64, " codepoints from ", normalized_len as u64, "-codepoint orth"));
    }
    let end = normalized_len - form.suffix_to_cut() as usize;
    if prefix_codepoints_num > usize::MAX - cut {
        return Err(dict_error("prefix cut exceeds lemma end", ""));
    }
    let start = prefix_codepoints_num + cut;
    decode_analyzer_lemma_range(orth, start, end, form, true)
}

/// What the decoder needs to know of a word once.
#[derive(Debug, Clone, Copy)]
pub struct AnalyzerOrthContext<'a> {
    pub orth: &'a str,
    pub original_codepoints_len: usize,
    pub lowercase_codepoints_len: usize,
    pub lowercases_to_self: bool,
}

impl<'a> AnalyzerOrthContext<'a> {
    pub open spec fn wf(&self) -> bool {
        &&& self.original_codepoints_len == self.orth@.len()
        &&& self.lowercase_codepoints_len == self.orth@.len()
        &&& self.lowercases_to_self == forall|i: int| 0 <= i < self.orth@.len() ==> lower_equiv(#[trigger] self.orth@[i])
    }

    pub fn new(orth: &'a str) -> (c: Self)
        ensures
            c.wf(),
            c.orth@ == orth@,
    {
        let chars = chars_of(orth);
        let mut lowercases_to_self = true;
        let mut i: usize = 0;
        while i < chars.len()
            invariant
                chars@ == orth@,
                i <= chars@.len(),
                lowercases_to_self == forall|k: int| 0 <= k < i ==> lower_equiv(#[trigger] orth@[k]),
            decreases chars@.len() - i,
        {
            if !char_lowercases_to_self(chars[i]) {
                lowercases_to_self = false;
            }
            i = i + 1;
        }
        assert(i == orth@.len());
        assert(lowercases_to_self == forall|k: int| 0 <= k < orth@.len() ==> lower_equiv(#[trigger] orth@[k]));
        let c = AnalyzerOrthContext {
            orth,
            original_codepoints_len: chars.len(),
            lowercase_codepoints_len: chars.len(),
            lowercases_to_self,
        };
        assert(c.orth@ == orth@);
        assert(c.lowercases_to_self == lowercases_to_self);
        assert(c.lowercases_to_self == forall|k: int| 0 <= k < c.orth@.len() ==> lower_equiv(#[trigger] c.orth@[k]));
        c
    }
}

/// Decodes the lemma of the context's word; a form that changes nothing
/// gives the word itself.
pub fn decode_analyzer_lemma_for_form_in_context<F: AnalyzerFormView>(context: &AnalyzerOrthContext<'_>, form: &F) -> (r: Result<String>)
    requires
        context.wf(),
    ensures
        r is Ok <==> analyzer_lemma(context.orth@, *form) is Some,
        r matches Ok(s) ==> analyzer_lemma(context.orth@, *form) == Some(s@),
        r matches Err(e) ==> e is InvalidDictionary,
{
    if form.prefix_to_cut() == 0 && form.suffix_to_cut() == 0 && form.suffix_to_add().is_empty()
        && form.case_pattern_is_empty() && context.lowercases_to_self {
        proof {
            let orth = context.orth@;
            lemma_range_identity(orth, orth.len() as int, *form);
            assert(orth.take(orth.len() as int) =~= orth);
            assert(form.spec_suffix_to_add() =~= Seq::<char>::empty());
            assert(orth + Seq::<char>::empty() =~= orth);
        }
        return Ok(owned(context.orth));
    }
    decode_analyzer_lemma_with_prefix_context_len(
        context.orth,
        context.original_codepoints_len,
        context.lowercase_codepoints_len,
        form,
    )
}

/// Decodes the lemma of a whole word.
pub fn decode_analyzer_lemma_for_form<F: AnalyzerFormView>(orth: &str, form: &F) -> (r: Result<String>)
    ensures
        r is Ok <==> analyzer_lemma(orth@, *form) is Some,
        r matches Ok(s) ==> analyzer_lemma(orth@, *form) == Some(s@),
        r matches Err(e) ==> e is InvalidDictionary,
{
    let context = AnalyzerOrthContext::new(orth);
    decode_analyzer_lemma_for_form_in_context(&context, form)
}

/// Decodes the part of a lemma that a prefix segment contributes: its
/// characters after the form's prefix cut, recased, with no suffix.
pub fn decode_analyzer_prefix_lemma_for_form<F: AnalyzerFormView>(orth: &str, form: &F) -> (r: Result<String>)
    ensures
        r is Ok <==> decoded_range(orth@, form.spec_prefix_to_cut() as int, orth@.len() as int, *form, false) is Some,
        r matches Ok(s) ==> decoded_range(orth@, form.spec_prefix_to_cut() as int, orth@.len() as int, *form, false) == Some(s@),
        r matches Err(e) ==> e is InvalidDictionary,
{
    let context = AnalyzerOrthContext::new(orth);
    let start = form.prefix_to_cut() as usize;
    decode_analyzer_lemma_range(orth, start, context.lowercase_codepoints_len, form, false)
}

} // verus!
