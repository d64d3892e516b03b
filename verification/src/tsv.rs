//! Loading a dictionary and a tagset from their tab-separated text forms.
use vstd::prelude::*;
use crate::dictionary::{Dictionary, DictionaryEntry, EntryView};
use crate::error::{Error, Result};
use crate::id_resolver::{
    IdResolver, canonical_labels, normalized_id_value, split_char, split_on_char,
    lemma_split_char_nonempty, padded_update,
};
use crate::dictionary::all_digits;
use crate::hints::{
    SegmentationHints, HintsScan, hints_scan, apply_segmentation_hints, fits_hints, hints_fit, hints_result,
    asks_changes,
};
use crate::text::{
    chars_of, decimal, decimal_string, owned, push_char, push_str, str_eq, string_from_char_range,
    trim_range, trimmed, trim_bounds, lemma_trim_bounds_unique, whitespace_of, is_whitespace,
    is_ascii_digit_char,
};

verus! {

/// `s` with every trailing carriage return removed.
pub open spec fn strip_cr(s: Seq<char>) -> Seq<char>
    decreases s.len(),
{
    if s.len() > 0 && s.last() == '\r' {
        strip_cr(s.drop_last())
    } else {
        s
    }
}

/// The lines of a text (as `str::lines`): the pieces between line feeds,
/// without a last empty piece after a final line feed.
pub open spec fn lines_of(s: Seq<char>) -> Seq<Seq<char>> {
    let pieces = split_char(s, '\n');
    if pieces.last().len() == 0 { pieces.drop_last() } else { pieces }
}

/// `s` begins with `p`.
pub open spec fn starts_with(s: Seq<char>, p: Seq<char>) -> bool {
    p.len() <= s.len() && s.take(p.len() as int) == p
}

/// A line that holds an entry: not blank and not a `#` comment.
pub open spec fn is_data_line(line: Seq<char>) -> bool {
    trimmed(line).len() > 0 && trimmed(line)[0] != '#'
}

pub proof fn lemma_split_char_len(s: Seq<char>, sep: char)
    ensures
        split_char(s, sep).len() <= s.len() + 1,
    decreases s.len(),
{
    if s.len() > 0 {
        lemma_split_char_len(s.drop_last(), sep);
        lemma_split_char_nonempty(s.drop_last(), sep);
        let rest = split_char(s.drop_last(), sep);
        if s.last() == sep {
            assert(split_char(s, sep) == rest.push(Seq::<char>::empty()));
        } else {
            assert(split_char(s, sep) == rest.update(rest.len() - 1, rest.last().push(s.last())));
        }
    } else {
        assert(split_char(s, sep) == seq![Seq::<char>::empty()]);
    }
}

/// What reading the lines of a dictionary text has found so far.
pub struct TsvScan {
    /// Inside a `#<COPYRIGHT>` block.
    pub in_copyright: bool,
    /// The value of the last `#!DICT-ID` line.
    pub dict_id: Seq<char>,
    /// The lines of the copyright blocks, each followed by a line feed.
    pub copyright: Seq<char>,
    /// The tab-separated fields of each entry line, in order.
    pub rows: Seq<Seq<Seq<char>>>,
    /// The number (from 1) of the first entry line with fewer than three
    /// fields.
    pub short_line: Option<nat>,
}

/// The scan before any line.
pub open spec fn tsv_scan_start() -> TsvScan {
    TsvScan {
        in_copyright: false,
        dict_id: Seq::empty(),
        copyright: Seq::empty(),
        rows: Seq::empty(),
        short_line: None,
    }
}

/// The scan after one more line, the line numbered `number`.
pub open spec fn tsv_scan_line(st: TsvScan, raw: Seq<char>, number: nat) -> TsvScan {
    let line = strip_cr(raw);
    if st.in_copyright {
        if trimmed(line) == "#</COPYRIGHT>"@ {
            TsvScan { in_copyright: false, ..st }
        } else {
            TsvScan { copyright: st.copyright + line + seq!['\n'], ..st }
        }
    } else if starts_with(line, "#!DICT-ID"@) {
        TsvScan { dict_id: trimmed(line.skip("#!DICT-ID"@.len() as int)), ..st }
    } else if trimmed(line) == "#<COPYRIGHT>"@ {
        TsvScan { in_copyright: true, ..st }
    } else if !is_data_line(line) {
        st
    } else if split_char(line, '\t').len() < 3 {
        TsvScan { short_line: if st.short_line is None { Some(number) } else { st.short_line }, ..st }
    } else {
        TsvScan { rows: st.rows.push(split_char(line, '\t')), ..st }
    }
}

/// The scan of the given lines.
pub open spec fn tsv_scan(lines: Seq<Seq<char>>) -> TsvScan
    decreases lines.len(),
{
    if lines.len() == 0 {
        tsv_scan_start()
    } else {
        tsv_scan_line(tsv_scan(lines.drop_last()), lines.last(), lines.len() as nat)
    }
}

/// The field at `i`, or `_` when the row is shorter.
pub open spec fn field_or_blank(fields: Seq<Seq<char>>, i: int) -> Seq<char> {
    if i < fields.len() { fields[i] } else { seq!['_'] }
}

/// The name key a row is stored under.
pub open spec fn row_name_key(fields: Seq<Seq<char>>) -> Seq<char> {
    normalized_id_value(field_or_blank(fields, 3))
}

/// The labels key a row is stored under.
pub open spec fn row_labels_key(fields: Seq<Seq<char>>) -> Seq<char> {
    normalized_id_value(canonical_labels(field_or_blank(fields, 4)))
}

/// The entry holds the form and lemma of the row, and the ids that the
/// resolver gives its tag, name and labels.
pub open spec fn row_entry(e: EntryView, fields: Seq<Seq<char>>, r: IdResolver) -> bool {
    &&& e.orth == fields[0]
    &&& e.lemma == fields[1]
    &&& r.tag_map().contains_key(fields[2]) && r.tag_map()[fields[2]] == e.tag_id
    &&& r.name_map().contains_key(row_name_key(fields)) && r.name_map()[row_name_key(fields)] == e.name_id
    &&& r.label_map().contains_key(row_labels_key(fields)) && r.label_map()[row_labels_key(fields)] == e.labels_id
}

/// `r` is `input` with the tags, names and labels of the rows added: what
/// `input` resolved it still resolves the same way, and it knows nothing
/// else.
pub open spec fn extends_with_rows(input: IdResolver, r: IdResolver, rows: Seq<Seq<Seq<char>>>) -> bool {
    &&& forall|k: Seq<char>| #[trigger] r.tag_map().contains_key(k) <==>
        (input.tag_map().contains_key(k) || exists|j: int| 0 <= j < rows.len() && rows[j][2] == k)
    &&& forall|k: Seq<char>| #[trigger] input.tag_map().contains_key(k) ==> r.tag_map()[k] == input.tag_map()[k]
    &&& forall|k: Seq<char>| #[trigger] r.name_map().contains_key(k) <==>
        (input.name_map().contains_key(k) || exists|j: int| 0 <= j < rows.len() && row_name_key(rows[j]) == k)
    &&& forall|k: Seq<char>| #[trigger] input.name_map().contains_key(k) ==> r.name_map()[k] == input.name_map()[k]
    &&& forall|k: Seq<char>| #[trigger] r.label_map().contains_key(k) <==>
        (input.label_map().contains_key(k) || exists|j: int| 0 <= j < rows.len() && row_labels_key(rows[j]) == k)
    &&& forall|k: Seq<char>| #[trigger] input.label_map().contains_key(k) ==> r.label_map()[k] == input.label_map()[k]
    &&& r.spec_tagset_id() == input.spec_tagset_id()
}

/// The dictionary holds what the scan of a text found, over `input`
/// extended with the rows' tags, names and labels.
pub open spec fn tsv_loaded(d: Dictionary, input: IdResolver, sc: TsvScan) -> bool {
    &&& d.wf()
    &&& d.indexed_by_orth()
    &&& d.indexed_by_lemma()
    &&& d.spec_id() == sc.dict_id
    &&& d.spec_copyright() == sc.copyright
    &&& d.entries_seq().len() == sc.rows.len()
    &&& forall|k: int| 0 <= k < sc.rows.len() ==> #[trigger] row_entry(d.entries_seq()[k], sc.rows[k], d.spec_resolver())
    &&& extends_with_rows(input, d.spec_resolver(), sc.rows)
}

/// The message for an entry line with fewer than three fields.
pub open spec fn short_line_message(number: nat) -> Seq<char> {
    "dictionary line "@ + decimal(number) + " has fewer than 3 tab-separated fields"@
}

/// The resolver has room for `n` more tags, names and labels.
pub open spec fn resolver_room(r: IdResolver, n: int) -> bool {
    &&& r.tags_len() + n < i32::MAX
    &&& r.names_len() + n < i32::MAX
    &&& r.labels_len() + n < i32::MAX
}

/// The lines of a text, as `str::lines` gives them.
pub fn text_lines(content: &str) -> (r: Vec<String>)
    ensures
        r@.map_values(|l: String| l@) == lines_of(content@),
{
    let chars = chars_of(content);
    let mut pieces = split_on_char(chars.as_slice(), '\n');
    proof { lemma_split_char_nonempty(content@, '\n'); }
    let last = pieces.len() - 1;
    if pieces[last].as_str().is_empty() {
        pieces.pop();
        assert(pieces@.map_values(|l: String| l@) =~= split_char(content@, '\n').drop_last());
    }
    pieces
}

/// How many characters are left once trailing carriage returns are removed.
fn strip_cr_end(s: &[char]) -> (end: usize)
    ensures
        end <= s@.len(),
        s@.take(end as int) == strip_cr(s@),
{
    let mut end = s.len();
    assert(s@.take(s@.len() as int) =~= s@);
    while end > 0 && s[end - 1] == '\r'
        invariant
            end <= s@.len(),
            strip_cr(s@.take(end as int)) == strip_cr(s@),
        decreases end,
    {
        assert(s@.take(end as int).drop_last() =~= s@.take(end - 1));
        end = end - 1;
    }
    end
}

/// `new` is `old` with `k` mapped to `v`, and `k` kept its value if it had one.
pub open spec fn map_grows(old: Map<Seq<char>, i32>, new: Map<Seq<char>, i32>, k: Seq<char>, v: i32) -> bool {
    &&& new == old.insert(k, v)
    &&& old.contains_key(k) ==> old[k] == v
}

proof fn lemma_extends_push(
    input: IdResolver,
    before: IdResolver,
    after: IdResolver,
    rows: Seq<Seq<Seq<char>>>,
    fv: Seq<Seq<char>>,
)
    requires
        extends_with_rows(input, before, rows),
        fv.len() >= 3,
        exists|v: i32| map_grows(before.tag_map(), after.tag_map(), fv[2], v),
        exists|v: i32| map_grows(before.name_map(), after.name_map(), row_name_key(fv), v),
        exists|v: i32| map_grows(before.label_map(), after.label_map(), row_labels_key(fv), v),
        after.spec_tagset_id() == before.spec_tagset_id(),
    ensures
        extends_with_rows(input, after, rows.push(fv)),
{
    let rows2 = rows.push(fv);
    assert forall|k: Seq<char>| #[trigger] after.tag_map().contains_key(k) <==>
        (input.tag_map().contains_key(k) || exists|j: int| 0 <= j < rows2.len() && rows2[j][2] == k) by {
        if exists|j: int| 0 <= j < rows2.len() && rows2[j][2] == k {
            let j = choose|j: int| 0 <= j < rows2.len() && rows2[j][2] == k;
            if j < rows.len() {
                assert(rows[j][2] == k);
                assert(before.tag_map().contains_key(k));
            }
        }
        if after.tag_map().contains_key(k) && k != fv[2] {
            assert(before.tag_map().contains_key(k));
            if !input.tag_map().contains_key(k) {
                let j = choose|j: int| 0 <= j < rows.len() && rows[j][2] == k;
                assert(rows2[j][2] == k);
            }
        }
        if k == fv[2] {
            assert(rows2[rows.len() as int][2] == k);
        }
    }
    assert forall|k: Seq<char>| #[trigger] after.name_map().contains_key(k) <==>
        (input.name_map().contains_key(k) || exists|j: int| 0 <= j < rows2.len() && row_name_key(rows2[j]) == k) by {
        if exists|j: int| 0 <= j < rows2.len() && row_name_key(rows2[j]) == k {
            let j = choose|j: int| 0 <= j < rows2.len() && row_name_key(rows2[j]) == k;
            if j < rows.len() {
                assert(row_name_key(rows[j]) == k);
                assert(before.name_map().contains_key(k));
            }
        }
        if after.name_map().contains_key(k) && k != row_name_key(fv) {
            assert(before.name_map().contains_key(k));
            if !input.name_map().contains_key(k) {
                let j = choose|j: int| 0 <= j < rows.len() && row_name_key(rows[j]) == k;
                assert(row_name_key(rows2[j]) == k);
            }
        }
        if k == row_name_key(fv) {
            assert(row_name_key(rows2[rows.len() as int]) == k);
        }
    }
    assert forall|k: Seq<char>| #[trigger] after.label_map().contains_key(k) <==>
        (input.label_map().contains_key(k) || exists|j: int| 0 <= j < rows2.len() && row_labels_key(rows2[j]) == k) by {
        if exists|j: int| 0 <= j < rows2.len() && row_labels_key(rows2[j]) == k {
            let j = choose|j: int| 0 <= j < rows2.len() && row_labels_key(rows2[j]) == k;
            if j < rows.len() {
                assert(row_labels_key(rows[j]) == k);
                assert(before.label_map().contains_key(k));
            }
        }
        if after.label_map().contains_key(k) && k != row_labels_key(fv) {
            assert(before.label_map().contains_key(k));
            if !input.label_map().contains_key(k) {
                let j = choose|j: int| 0 <= j < rows.len() && row_labels_key(rows[j]) == k;
                assert(row_labels_key(rows2[j]) == k);
            }
        }
        if k == row_labels_key(fv) {
            assert(row_labels_key(rows2[rows.len() as int]) == k);
        }
    }
    assert forall|k: Seq<char>| #[trigger] input.tag_map().contains_key(k) implies after.tag_map()[k] == input.tag_map()[k] by {
        assert(before.tag_map().contains_key(k));
    }
    assert forall|k: Seq<char>| #[trigger] input.name_map().contains_key(k) implies after.name_map()[k] == input.name_map()[k] by {
        assert(before.name_map().contains_key(k));
    }
    assert forall|k: Seq<char>| #[trigger] input.label_map().contains_key(k) implies after.label_map()[k] == input.label_map()[k] by {
        assert(before.label_map().contains_key(k));
    }
}

/// Once an entry line was too short, the scan keeps pointing at it.
proof fn lemma_short_line_stays(lv: Seq<Seq<char>>, n: int)
    requires
        0 <= n <= lv.len(),
        tsv_scan(lv.take(n)).short_line is Some,
    ensures
        tsv_scan(lv).short_line == tsv_scan(lv.take(n)).short_line,
    decreases lv.len() - n,
{
    if n == lv.len() {
        assert(lv.take(n) =~= lv);
    } else {
        assert(lv.take(n + 1).drop_last() =~= lv.take(n));
        lemma_short_line_stays(lv, n + 1);
    }
}

/// The end of the word that starts at `i`: the first whitespace at or
/// after `i`, or the end.
pub open spec fn word_end(s: Seq<char>, i: int) -> int
    decreases s.len() - i,
{
    if i < 0 || i >= s.len() || whitespace_of(s[i]) { i } else { word_end(s, i + 1) }
}

/// The first character at or after `i` that is not whitespace, or the end.
pub open spec fn word_start(s: Seq<char>, i: int) -> int
    decreases s.len() - i,
{
    if i < 0 || i >= s.len() || !whitespace_of(s[i]) { i } else { word_start(s, i + 1) }
}

/// The value of a digit character.
pub open spec fn digit_value(c: char) -> int {
    (c as int) - ('0' as int)
}

/// The value of a string of decimal digits.
pub open spec fn digits_value(s: Seq<char>) -> int
    decreases s.len(),
{
    if s.len() == 0 { 0 } else { digits_value(s.drop_last()) * 10 + digit_value(s.last()) }
}

/// What `str::parse::<i32>` gives: an optional sign, then at least one
/// decimal digit and nothing else, within the range of `i32`.
pub open spec fn parsed_i32(s: Seq<char>) -> Option<int> {
    let signed = s.len() > 0 && (s[0] == '-' || s[0] == '+');
    let digits = if signed { s.skip(1) } else { s };
    let magnitude = digits_value(digits);
    let value = if s.len() > 0 && s[0] == '-' { -magnitude } else { magnitude };
    if all_digits(digits) && i32::MIN <= value <= i32::MAX { Some(value) } else { None }
}

/// What reading the lines of a tagset text has found so far.
pub struct TagsetScan {
    /// Inside the `[TAGS]` section.
    pub in_tags: bool,
    pub tagset_id: Seq<char>,
    /// The tag of each id.
    pub tags: Seq<Seq<char>>,
    /// The id each tag string resolves to.
    pub tag_map: Map<Seq<char>, i32>,
    /// The message of the first malformed tag line.
    pub error: Option<Seq<char>>,
    /// A tag line gave an id that the tag table cannot hold (negative, or
    /// the largest `i32`).
    pub out_of_range: bool,
}

/// The tags every resolver starts with.
pub open spec fn tagset_scan_start() -> TagsetScan {
    TagsetScan {
        in_tags: false,
        tagset_id: Seq::empty(),
        tags: seq!["ign"@, "sp"@],
        tag_map: Map::empty().insert("ign"@, 0i32).insert("sp"@, 1i32),
        error: None,
        out_of_range: false,
    }
}

/// The tag table after `tag` is stored under `id`.
pub open spec fn tags_set(st: TagsetScan, id: int, tag: Seq<char>) -> TagsetScan {
    let map = if id < st.tags.len() && st.tags[id].len() > 0 { st.tag_map.remove(st.tags[id]) } else { st.tag_map };
    TagsetScan { tags: padded_update(st.tags, id, tag), tag_map: map.insert(tag, id as i32), ..st }
}

/// The scan after one more line.
pub open spec fn tagset_scan_line(st: TagsetScan, raw: Seq<char>) -> TagsetScan {
    let line = trimmed(raw);
    if st.error is Some || st.out_of_range {
        st
    } else if line.len() == 0 || (line[0] == '#' && !starts_with(line, "#!TAGSET-ID"@)) {
        st
    } else if starts_with(line, "#!TAGSET-ID"@) {
        TagsetScan { tagset_id: trimmed(line.skip("#!TAGSET-ID"@.len() as int)), ..st }
    } else if line[0] == '[' && line.last() == ']' {
        TagsetScan { in_tags: line == "[TAGS]"@, ..st }
    } else if !st.in_tags {
        st
    } else {
        let first = line.take(word_end(line, 0));
        let second_start = word_start(line, word_end(line, 0));
        match parsed_i32(first) {
            None => TagsetScan { error: Some("invalid tag id in line: "@ + line), ..st },
            Some(id) => if second_start >= line.len() {
                TagsetScan { error: Some("missing tag in line: "@ + line), ..st }
            } else if id < 0 || id >= i32::MAX {
                TagsetScan { out_of_range: true, ..st }
            } else {
                tags_set(st, id, line.subrange(second_start, word_end(line, second_start)))
            },
        }
    }
}

/// The scan of the given lines.
pub open spec fn tagset_scan(lines: Seq<Seq<char>>) -> TagsetScan
    decreases lines.len(),
{
    if lines.len() == 0 {
        tagset_scan_start()
    } else {
        tagset_scan_line(tagset_scan(lines.drop_last()), lines.last())
    }
}

fn word_end_at(s: &[char], i: usize) -> (r: usize)
    requires
        i <= s@.len(),
    ensures
        r as int == word_end(s@, i as int),
        i <= r <= s@.len(),
{
    let mut j = i;
    while j < s.len() && !is_whitespace(s[j])
        invariant
            i <= j <= s@.len(),
            word_end(s@, j as int) == word_end(s@, i as int),
        decreases s@.len() - j,
    {
        j = j + 1;
    }
    j
}

fn word_start_at(s: &[char], i: usize) -> (r: usize)
    requires
        i <= s@.len(),
    ensures
        r as int == word_start(s@, i as int),
        i <= r <= s@.len(),
{
    let mut j = i;
    while j < s.len() && is_whitespace(s[j])
        invariant
            i <= j <= s@.len(),
            word_start(s@, j as int) == word_start(s@, i as int),
        decreases s@.len() - j,
    {
        j = j + 1;
    }
    j
}

/// `str::parse::<i32>` on the characters.
pub fn parse_i32(s: &[char]) -> (r: Option<i32>)
    ensures
        r matches Some(v) ==> parsed_i32(s@) == Some(v as int),
        r is None ==> parsed_i32(s@) is None,
{
    let n = s.len();
    let negative = n > 0 && s[0] == '-';
    let start: usize = if n > 0 && (s[0] == '-' || s[0] == '+') { 1 } else { 0 };
    let ghost digits = if start == 1 { s@.skip(1) } else { s@ };
    assert(digits =~= s@.subrange(start as int, n as int));
    if start >= n {
        return None;
    }
    let mut value: i64 = 0;
    let mut i: usize = start;
    while i < n
        invariant
            start <= i <= n,
            n == s@.len(),
            start < n,
            digits =~= s@.subrange(start as int, n as int),
            digits == (if s@.len() > 0 && (s@[0] == '-' || s@[0] == '+') { s@.skip(1) } else { s@ }),
            negative == (s@.len() > 0 && s@[0] == '-'),
            forall|k: int| start <= k < i ==> is_ascii_digit_char(#[trigger] s@[k]),
            value as int == digits_value(s@.subrange(start as int, i as int)),
            0 <= value <= 0x8000_0000,
        decreases n - i,
    {
        let c = s[i];
        if !('0' <= c && c <= '9') {
            assert(!is_ascii_digit_char(digits[i - start]));
            return None;
        }
        let d = if c == '0' { 0i64 } else if c == '1' { 1 } else if c == '2' { 2 } else if c == '3' { 3 }
            else if c == '4' { 4 } else if c == '5' { 5 } else if c == '6' { 6 } else if c == '7' { 7 }
            else if c == '8' { 8 } else { 9 };
        assert(d == digit_value(c));
        assert(s@.subrange(start as int, i + 1).drop_last() =~= s@.subrange(start as int, i as int));
        let next = value * 10 + d;
        i = i + 1;
        if next > 0x8000_0000 {
            proof {
                if all_digits(digits) {
                    lemma_digits_value_grows(digits, i - start);
                    assert(digits.take(i - start) =~= s@.subrange(start as int, i as int));
                }
            }
            return None;
        }
        value = next;
    }
    assert(all_digits(digits));
    if negative {
        Some((0 - value) as i32)
    } else if value > 0x7fff_ffff {
        None
    } else {
        Some(value as i32)
    }
}

/// Adding digits never makes the value smaller.
proof fn lemma_digits_value_grows(s: Seq<char>, k: int)
    requires
        0 <= k <= s.len(),
        forall|i: int| 0 <= i < s.len() ==> is_ascii_digit_char(#[trigger] s[i]),
    ensures
        digits_value(s.take(k)) <= digits_value(s),
    decreases s.len() - k,
{
    if k < s.len() {
        lemma_digits_value_grows(s, k + 1);
        assert(s.take(k + 1).drop_last() =~= s.take(k));
        lemma_digits_value_nonneg(s.take(k));
    } else {
        assert(s.take(k) =~= s);
    }
}

proof fn lemma_digits_value_nonneg(s: Seq<char>)
    requires
        forall|i: int| 0 <= i < s.len() ==> is_ascii_digit_char(#[trigger] s[i]),
    ensures
        digits_value(s) >= 0,
    decreases s.len(),
{
    if s.len() > 0 {
        lemma_digits_value_nonneg(s.drop_last());
        assert(is_ascii_digit_char(s[s.len() - 1]));
    }
}

/// Once a tag line failed, or gave an id out of range, later lines change
/// nothing.
proof fn lemma_tagset_stops(lv: Seq<Seq<char>>, n: int)
    requires
        0 <= n <= lv.len(),
        tagset_scan(lv.take(n)).error is Some || tagset_scan(lv.take(n)).out_of_range,
    ensures
        tagset_scan(lv) == tagset_scan(lv.take(n)),
    decreases lv.len() - n,
{
    if n == lv.len() {
        assert(lv.take(n) =~= lv);
    } else {
        assert(lv.take(n + 1).drop_last() =~= lv.take(n));
        lemma_tagset_stops(lv, n + 1);
    }
}

/// The outcome of loading a dictionary scanned as `sc` and applying the
/// rules scanned as `hs`: the rebuilt dictionary, or an error when the label
/// ids the rules can add would not fit in an `i32`.
pub open spec fn segmented_load(r: Result<Dictionary>, input: IdResolver, sc: TsvScan, hs: HintsScan) -> bool {
    exists|loaded: Dictionary, h: SegmentationHints|
        #![trigger tsv_loaded(loaded, input, sc), h.from_scan(hs)]
        {
            &&& tsv_loaded(loaded, input, sc)
            &&& h.from_scan(hs)
            &&& (asks_changes(h) && !hints_fit(loaded, h)) ==> (r matches Err(e)
                && e matches Error::InvalidDictionary(m) && m@ == "too many label sets for the segmentation rules"@)
            &&& !(asks_changes(h) && !hints_fit(loaded, h)) ==> (r matches Ok(d) && hints_result(d, loaded, h))
        }
}

/// Reads dictionaries and tagsets written as text.
pub struct TsvLexiconLoader;

impl TsvLexiconLoader {
    /// A dictionary from its text: one entry per line with at least three
    /// tab-separated fields (form, lemma, tag, then optionally name and
    /// labels), blank lines and `#` comments skipped, the id taken from a
    /// `#!DICT-ID` line and the copyright from a `#<COPYRIGHT>` block.
    /// Tags, names and labels not yet in `resolver` are added to it.
    pub fn from_str(content: &str, resolver: IdResolver) -> (r: Result<Dictionary>)
        requires
            resolver.wf(),
            resolver_room(resolver, content@.len() + 1int),
        ensures
            ({
                let sc = tsv_scan(lines_of(content@));
                &&& r is Ok <==> sc.short_line is None
                &&& r matches Err(e) ==> e matches Error::InvalidDictionary(m)
                    && m@ == short_line_message(sc.short_line.unwrap())
                &&& r matches Ok(d) ==> tsv_loaded(d, resolver, sc)
            }),
    {
        proof {
            reveal_strlit("#</COPYRIGHT>");
            reveal_strlit("#<COPYRIGHT>");
            reveal_strlit("#!DICT-ID");
            reveal_strlit("_");
        }
        assert("_"@ =~= seq!['_']);
        let ghost input = resolver;
        let lines = text_lines(content);
        let ghost lv = lines@.map_values(|l: String| l@);
        proof {
            lemma_split_char_len(content@, '\n');
            lemma_split_char_nonempty(content@, '\n');
            assert(lv == lines_of(content@));
            assert(lv.len() <= split_char(content@, '\n').len());
        }
        let mut res = resolver;
        let mut dictionary = Dictionary::new(IdResolver::default());
        let mut dict_id = String::new();
        let mut copyright = String::new();
        let mut in_copyright = false;
        let mut i: usize = 0;
        assert(lv.take(0) =~= Seq::<Seq<char>>::empty());
        while i < lines.len()
            invariant
                i <= lines@.len(),
                lv == lines@.map_values(|l: String| l@),
                lv == lines_of(content@),
                lv.len() <= content@.len() + 1,
                input.wf(),
                resolver_room(input, content@.len() + 1int),
                res.wf(),
                res.tags_len() <= input.tags_len() + i,
                res.names_len() <= input.names_len() + i,
                res.labels_len() <= input.labels_len() + i,
                dictionary.wf(),
                dictionary.indexed_by_orth(),
                dictionary.indexed_by_lemma(),
                ({
                    let st = tsv_scan(lv.take(i as int));
                    &&& st.short_line is None
                    &&& st.in_copyright == in_copyright
                    &&& st.dict_id == dict_id@
                    &&& st.copyright == copyright@
                    &&& dictionary.entries_seq().len() == st.rows.len()
                    &&& forall|k: int| 0 <= k < st.rows.len() ==> #[trigger] row_entry(dictionary.entries_seq()[k], st.rows[k], res)
                    &&& extends_with_rows(input, res, st.rows)
                }),
            decreases lines@.len() - i,
        {
            let ghost st = tsv_scan(lv.take(i as int));
            proof {
                reveal_strlit("#</COPYRIGHT>");
                reveal_strlit("#<COPYRIGHT>");
                reveal_strlit("#!DICT-ID");
                reveal_strlit("_");
                assert(lv.take(i + 1).drop_last() =~= lv.take(i as int));
                assert(lv.take(i + 1).last() == lv[i as int]);
                assert(lv[i as int] == lines@[i as int]@);
            }
            let raw = chars_of(lines[i].as_str());
            let end = strip_cr_end(raw.as_slice());
            let line = string_from_char_range(raw.as_slice(), 0, end);
            let lc = chars_of(line.as_str());
            assert(lc@ == strip_cr(lv[i as int]));
            let (a, b) = trim_range(lc.as_slice());
            let t = string_from_char_range(lc.as_slice(), a, b);
            assert(t@ == trimmed(lc@));
            if in_copyright {
                if str_eq(t.as_str(), "#</COPYRIGHT>") {
                    in_copyright = false;
                } else {
                    push_str(&mut copyright, line.as_str());
                    push_char(&mut copyright, '\n');
                }
            } else if crate::engine::str_starts_with(line.as_str(), "#!DICT-ID") {
                let rest = string_from_char_range(lc.as_slice(), 9, lc.len());
                let rc = chars_of(rest.as_str());
                assert(rc@ =~= lc@.skip(9));
                let (c, d) = trim_range(rc.as_slice());
                dict_id = string_from_char_range(rc.as_slice(), c, d);
            } else if str_eq(t.as_str(), "#<COPYRIGHT>") {
                in_copyright = true;
            } else if a == b || lc[a] == '#' {
                proof {
                    if a < b {
                        assert(t@[0] == lc@[a as int]);
                    }
                }
            } else {
                proof {
                    assert(t@[0] == lc@[a as int]);
                }
                let fields = split_on_char(lc.as_slice(), '\t');
                let ghost fv = fields@.map_values(|p: String| p@);
                if fields.len() < 3 {
                    let mut message = owned("dictionary line ");
                    let number = decimal_string((i + 1) as u64);
                    push_str(&mut message, number.as_str());
                    push_str(&mut message, " has fewer than 3 tab-separated fields");
                    proof {
                        let next = tsv_scan(lv.take(i + 1));
                        assert(next.short_line == Some((i + 1) as nat));
                        assert(lv.take(i + 1).len() == i + 1);
                        assert(tsv_scan(lines_of(content@)).short_line == Some((i + 1) as nat)) by {
                            lemma_short_line_stays(lv, i as int + 1);
                            assert(lv.take(lv.len() as int) =~= lv);
                        }
                    }
                    return Err(Error::invalid_dictionary(message.as_str()));
                }
                assert(fv[0] == fields@[0]@);
                assert(fv[1] == fields@[1]@);
                assert(fv[2] == fields@[2]@);
                let ghost before = res;
                let ghost name_key = row_name_key(fv);
                let ghost labels_key = row_labels_key(fv);
                let tag_id = match res.tag_id(fields[2].as_str()) {
                    Ok(id) => {
                        assert(res.tag_map() =~= before.tag_map().insert(fv[2], id));
                        id
                    },
                    Err(_) => res.get_or_insert_tag(fields[2].as_str()),
                };
                let ghost after_tag = res;
                let name_field: &str = if fields.len() > 3 { fields[3].as_str() } else { "_" };
                assert(name_field@ == field_or_blank(fv, 3));
                let name_id = res.get_or_insert_name(name_field);
                let ghost after_name = res;
                let labels_field: &str = if fields.len() > 4 { fields[4].as_str() } else { "_" };
                assert(labels_field@ == field_or_blank(fv, 4));
                let labels_id = res.get_or_insert_labels(labels_field);
                let entry = DictionaryEntry {
                    orth: owned(fields[0].as_str()),
                    lemma: owned(fields[1].as_str()),
                    tag_id,
                    name_id,
                    labels_id,
                };
                proof {
                    assert(map_grows(before.tag_map(), res.tag_map(), fv[2], tag_id));
                    assert(map_grows(before.name_map(), res.name_map(), name_key, name_id));
                    assert(map_grows(before.label_map(), res.label_map(), labels_key, labels_id));
                }
                let ghost ev = crate::dictionary::entry_view(entry);
                let ghost old_entries = dictionary.entries_seq();
                dictionary.insert(entry);
                proof {
                    let rows = st.rows.push(fv);
                    assert(tsv_scan(lv.take(i + 1)).rows == rows);
                    assert(row_entry(ev, fv, res));
                    assert forall|k: int| 0 <= k < rows.len() implies #[trigger] row_entry(dictionary.entries_seq()[k], rows[k], res) by {
                        if k < st.rows.len() {
                            assert(dictionary.entries_seq()[k] == old_entries[k]);
                            assert(row_entry(old_entries[k], st.rows[k], before));
                        } else {
                            assert(dictionary.entries_seq()[k] == ev);
                        }
                    }
                    lemma_extends_push(input, before, res, st.rows, fv);
                    assert(extends_with_rows(input, res, tsv_scan(lv.take(i + 1)).rows));
                }
            }
            i = i + 1;
        }
        proof {
            assert(lv.take(lv.len() as int) =~= lv);
        }
        dictionary.set_resolver(res);
        dictionary.set_metadata(dict_id.as_str(), copyright.as_str());
        Ok(dictionary)
    }

    /// A dictionary read from its tab-separated text and then rebuilt as the
    /// segmentation rules in `segmentation` say. Fails as `from_str` does,
    /// and when the label ids the rules can add would not fit in an `i32`.
    pub fn from_str_with_segmentation(content: &str, resolver: IdResolver, segmentation: &str) -> (r: Result<Dictionary>)
        requires
            resolver.wf(),
            resolver_room(resolver, content@.len() + 1int),
        ensures
            ({
                let sc = tsv_scan(lines_of(content@));
                let hs = hints_scan(lines_of(segmentation@));
                &&& sc.short_line is Some ==> (r matches Err(e) && e matches Error::InvalidDictionary(m)
                    && m@ == short_line_message(sc.short_line.unwrap()))
                &&& sc.short_line is None ==> segmented_load(r, resolver, sc, hs)
            }),
    {
        let hints = SegmentationHints::parse(segmentation);
        let dictionary = match Self::from_str(content, resolver) {
            Ok(d) => d,
            Err(e) => return Err(e),
        };
        if hints.has_rules() && !fits_hints(&dictionary, &hints) {
            proof {
                reveal_strlit("too many label sets for the segmentation rules");
            }
            return Err(Error::invalid_dictionary("too many label sets for the segmentation rules"));
        }
        let ghost loaded = dictionary;
        let d = apply_segmentation_hints(dictionary, &hints);
        assert(hints_result(d, loaded, hints));
        Ok(d)
    }

    /// A tagset from its text: `#!TAGSET-ID` gives its id, and each line
    /// of the `[TAGS]` section gives a tag id and the tag, separated by
    /// whitespace; blank lines and `#` comments are skipped.
    pub fn tagset_from_str(content: &str) -> (r: Result<IdResolver>)
        requires
            !tagset_scan(lines_of(content@)).out_of_range,
        ensures
            ({
                let sc = tagset_scan(lines_of(content@));
                &&& r is Ok <==> sc.error is None
                &&& r matches Err(e) ==> e matches Error::InvalidDictionary(m) && m@ == sc.error.unwrap()
                &&& r matches Ok(res) ==> {
                    &&& res.wf()
                    &&& res.tag_strings() == sc.tags
                    &&& res.tag_map() == sc.tag_map
                    &&& res.spec_tagset_id() == sc.tagset_id
                    &&& res.names_len() == 1
                    &&& res.name_map() == Map::<Seq<char>, i32>::empty().insert(seq!['_'], 0)
                    &&& res.labels_len() == 1
                    &&& res.label_map() == Map::<Seq<char>, i32>::empty().insert(seq!['_'], 0)
                }
            }),
    {
        let lines = text_lines(content);
        let ghost lv = lines@.map_values(|l: String| l@);
        let mut res = IdResolver::default();
        let mut in_tags = false;
        let mut i: usize = 0;
        proof {
            assert(lv.take(0) =~= Seq::<Seq<char>>::empty());
            assert(tagset_scan_start().tag_map =~= res.tag_map());
        }
        while i < lines.len()
            invariant
                i <= lines@.len(),
                lv == lines@.map_values(|l: String| l@),
                lv == lines_of(content@),
                !tagset_scan(lv).out_of_range,
                res.wf(),
                res.names_len() == 1,
                res.name_map() == Map::<Seq<char>, i32>::empty().insert(seq!['_'], 0),
                res.labels_len() == 1,
                res.label_map() == Map::<Seq<char>, i32>::empty().insert(seq!['_'], 0),
                ({
                    let st = tagset_scan(lv.take(i as int));
                    &&& st.error is None
                    &&& !st.out_of_range
                    &&& st.in_tags == in_tags
                    &&& st.tags == res.tag_strings()
                    &&& st.tag_map == res.tag_map()
                    &&& st.tagset_id == res.spec_tagset_id()
                }),
            decreases lines@.len() - i,
        {
            let ghost st = tagset_scan(lv.take(i as int));
            proof {
                reveal_strlit("#!TAGSET-ID");
                reveal_strlit("[TAGS]");
                assert(lv.take(i + 1).drop_last() =~= lv.take(i as int));
                assert(lv.take(i + 1).last() == lv[i as int]);
                assert(lv[i as int] == lines@[i as int]@);
            }
            let raw = chars_of(lines[i].as_str());
            let (a, b) = trim_range(raw.as_slice());
            let line = string_from_char_range(raw.as_slice(), a, b);
            let tc = chars_of(line.as_str());
            assert(tc@ == trimmed(lv[i as int]));
            let tagset_line = crate::engine::str_starts_with(line.as_str(), "#!TAGSET-ID");
            if a == b || (tc[0] == '#' && !tagset_line) {
            } else if tagset_line {
                let rest = string_from_char_range(tc.as_slice(), 11, tc.len());
                let rc = chars_of(rest.as_str());
                assert(rc@ =~= tc@.skip(11));
                let (c, d) = trim_range(rc.as_slice());
                let id_text = string_from_char_range(rc.as_slice(), c, d);
                res.set_tagset_id(id_text.as_str());
            } else if tc[0] == '[' && tc[tc.len() - 1] == ']' {
                in_tags = str_eq(line.as_str(), "[TAGS]");
            } else if !in_tags {
            } else {
                let first_end = word_end_at(tc.as_slice(), 0);
                let second = word_start_at(tc.as_slice(), first_end);
                let first = string_from_char_range(tc.as_slice(), 0, first_end);
                let fc = chars_of(first.as_str());
                assert(fc@ =~= tc@.take(first_end as int));
                match parse_i32(fc.as_slice()) {
                    None => {
                        let mut message = owned("invalid tag id in line: ");
                        push_str(&mut message, line.as_str());
                        proof {
                            assert(tagset_scan(lv.take(i + 1)).error == Some(message@));
                            lemma_tagset_stops(lv, i + 1);
                            assert(lv.take(lv.len() as int) =~= lv);
                        }
                        return Err(Error::invalid_dictionary(message.as_str()));
                    },
                    Some(id) => {
                        if second >= tc.len() {
                            let mut message = owned("missing tag in line: ");
                            push_str(&mut message, line.as_str());
                            proof {
                                assert(tagset_scan(lv.take(i + 1)).error == Some(message@));
                                lemma_tagset_stops(lv, i + 1);
                                assert(lv.take(lv.len() as int) =~= lv);
                            }
                            return Err(Error::invalid_dictionary(message.as_str()));
                        }
                        proof {
                            if id < 0 || id == i32::MAX {
                                assert(tagset_scan(lv.take(i + 1)).out_of_range);
                                lemma_tagset_stops(lv, i + 1);
                                assert(lv.take(lv.len() as int) =~= lv);
                            }
                            res.lemma_tag_strings();
                        }
                        let second_end = word_end_at(tc.as_slice(), second);
                        let tag = string_from_char_range(tc.as_slice(), second, second_end);
                        res.set_tag(id, tag.as_str());
                        proof {
                            assert(tagset_scan(lv.take(i + 1)) == tags_set(st, id as int, tag@));
                        }
                    },
                }
            }
            i = i + 1;
        }
        proof {
            assert(lv.take(lv.len() as int) =~= lv);
        }
        Ok(res)
    }

    /// Whether every tag id that `tagset_from_str` would store fits the tag
    /// table (not negative and below the largest `i32`); when it does not,
    /// the tagset cannot be loaded.
    pub fn tagset_ids_in_range(content: &str) -> (r: bool)
        ensures
            r == !tagset_scan(lines_of(content@)).out_of_range,
    {
        let lines = text_lines(content);
        let ghost lv = lines@.map_values(|l: String| l@);
        let mut in_tags = false;
        let mut i: usize = 0;
        assert(lv.take(0) =~= Seq::<Seq<char>>::empty());
        while i < lines.len()
            invariant
                i <= lines@.len(),
                lv == lines@.map_values(|l: String| l@),
                lv == lines_of(content@),
                ({
                    let st = tagset_scan(lv.take(i as int));
                    &&& st.error is None
                    &&& !st.out_of_range
                    &&& st.in_tags == in_tags
                }),
            decreases lines@.len() - i,
        {
            proof {
                reveal_strlit("#!TAGSET-ID");
                reveal_strlit("[TAGS]");
                assert(lv.take(i + 1).drop_last() =~= lv.take(i as int));
                assert(lv.take(i + 1).last() == lv[i as int]);
                assert(lv[i as int] == lines@[i as int]@);
            }
            let raw = chars_of(lines[i].as_str());
            let (a, b) = trim_range(raw.as_slice());
            let line = string_from_char_range(raw.as_slice(), a, b);
            let tc = chars_of(line.as_str());
            assert(tc@ == trimmed(lv[i as int]));
            let tagset_line = crate::engine::str_starts_with(line.as_str(), "#!TAGSET-ID");
            if a == b || (tc[0] == '#' && !tagset_line) || tagset_line {
            } else if tc[0] == '[' && tc[tc.len() - 1] == ']' {
                in_tags = str_eq(line.as_str(), "[TAGS]");
            } else if !in_tags {
            } else {
                let first_end = word_end_at(tc.as_slice(), 0);
                let second = word_start_at(tc.as_slice(), first_end);
                let first = string_from_char_range(tc.as_slice(), 0, first_end);
                let fc = chars_of(first.as_str());
                assert(fc@ =~= tc@.take(first_end as int));
                match parse_i32(fc.as_slice()) {
                    None => {
                        proof {
                            lemma_tagset_stops(lv, i + 1);
                            assert(lv.take(lv.len() as int) =~= lv);
                        }
                        return true;
                    },
                    Some(id) => {
                        if second >= tc.len() {
                            proof {
                                lemma_tagset_stops(lv, i + 1);
                                assert(lv.take(lv.len() as int) =~= lv);
                            }
                            return true;
                        }
                        if id < 0 || id == i32::MAX {
                            proof {
                                lemma_tagset_stops(lv, i + 1);
                                assert(lv.take(lv.len() as int) =~= lv);
                            }
                            return false;
                        }
                    },
                }
            }
            i = i + 1;
        }
        proof {
            assert(lv.take(lv.len() as int) =~= lv);
        }
        true
    }
}

} // verus!
