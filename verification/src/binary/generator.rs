//! The binary generator: the forms of a lemma, found by splitting the
//! lemma into dictionary segments that the segmentation rules allow.
use vstd::prelude::*;
use vstd::utf8::{decode_utf8, encode_utf8, valid_utf8};
use crate::config::SegmentationPreset;
use crate::dictionary::{DictionaryEntry, EntryView};
use crate::error::{Error, Result};
use crate::id_resolver::IdResolver;
use crate::ports::{str_option, Lexicon};
use crate::ordered::str_views;
use crate::text::{chars_of, owned, push_char, push_str, str_eq, string_from_char_range, string_from_utf8};
use crate::types::MorphInterpretation;
use super::analyzer::dictionary_sections_ok;
use super::data::{fsa_end_of, id_tables_at, implementation_of, metadata_strings, prologue_ok, size_checked_fsa_ok, BinaryDictionaryData};
use super::segmentation::metadata_records;
use super::fsa::{BinaryFsa, RawFsaPrefixMatch, fsa_recognize_start};
use super::interps::{
    generated_lemma, generated_orth, generator_groups_decoded, generator_groups_ok, decode_generator_interpretations, decode_generator_interps_groups, read_raw_interps_groups,
    EncodedGeneratorInterpretation, EncodedGeneratorInterpsGroup,
};
use super::segmentation::{
    option_values, default_option, sorted_listing,
    available_options_vec, default_segmentation_fsa_variant_index, has_initial_segmentation_transitions,
    segmentation_fsa_for_options, validate_segmentation_options, accepts_option, bytes_option, fsa_selected, variant_selected, SegmentationMetadata, SegmentationRulesFsa,
    SegmentationState, seg_next, seg_table_fits, seg_find, no_initial_transitions,
};

verus! {

/// A generator over a binary dictionary.
#[derive(Debug, Clone)]
pub struct BinaryGeneratorLexicon {
    data: BinaryDictionaryData,
    resolver: IdResolver,
    segmentation_metadata: SegmentationMetadata,
    default_segmentation_variant_index: Option<usize>,
}

/// One segment of a lemma and where its interpretations are kept.
#[derive(Debug, Clone)]
pub struct BinaryGeneratorChunk {
    pub lemma: String,
    pub shift_orth: bool,
    pub interpretations: usize,
}

/// A split of a lemma into segments that the rules accept.
#[derive(Debug, Clone)]
pub struct BinaryGeneratorPath {
    pub chunks: Vec<BinaryGeneratorChunk>,
    pub weak: bool,
}

/// Every chunk refers to a decoded group.
pub open spec fn chunks_in(chunks: Seq<BinaryGeneratorChunk>, groups: int) -> bool {
    forall|i: int| 0 <= i < chunks.len() ==> (#[trigger] chunks[i]).interpretations < groups
}

pub open spec fn paths_in(paths: Seq<BinaryGeneratorPath>, groups: int) -> bool {
    forall|i: int| 0 <= i < paths.len() ==> #[trigger] chunks_in(paths[i].chunks@, groups)
        && paths[i].chunks@.len() > 0
}

proof fn lemma_paths_in_mono(paths: Seq<BinaryGeneratorPath>, a: int, b: int)
    requires
        paths_in(paths, a),
        a <= b,
    ensures
        paths_in(paths, b),
{
    assert forall|i: int| 0 <= i < paths.len() implies #[trigger] chunks_in(paths[i].chunks@, b)
        && paths[i].chunks@.len() > 0 by {
        assert(chunks_in(paths[i].chunks@, a));
        let c = paths[i].chunks@;
        assert forall|j: int| 0 <= j < c.len() implies (#[trigger] c[j]).interpretations < b by {
            assert(c[j].interpretations < a);
        }
    }
}

fn copy_chunks(chunks: &Vec<BinaryGeneratorChunk>) -> (r: Vec<BinaryGeneratorChunk>)
    ensures
        r@.len() == chunks@.len(),
        forall|i: int| 0 <= i < r@.len() ==> (#[trigger] r@[i]).interpretations == chunks@[i].interpretations
            && r@[i].lemma@ == chunks@[i].lemma@ && r@[i].shift_orth == chunks@[i].shift_orth,
{
    let mut out: Vec<BinaryGeneratorChunk> = Vec::new();
    let mut i: usize = 0;
    while i < chunks.len()
        invariant
            i <= chunks@.len(),
            out@.len() == i,
            forall|k: int| 0 <= k < i ==> (#[trigger] out@[k]).interpretations == chunks@[k].interpretations
                && out@[k].lemma@ == chunks@[k].lemma@ && out@[k].shift_orth == chunks@[k].shift_orth,
        decreases chunks@.len() - i,
    {
        out.push(BinaryGeneratorChunk {
            lemma: owned(chunks[i].lemma.as_str()),
            shift_orth: chunks[i].shift_orth,
            interpretations: chunks[i].interpretations,
        });
        i = i + 1;
    }
    out
}

/// `i` is the first `:` of the lemma.
pub open spec fn first_colon_at(lemma: Seq<char>, i: int) -> bool {
    0 <= i < lemma.len() && lemma[i] == ':' && forall|j: int| 0 <= j < i ==> lemma[j] != ':'
}

/// The lemma looked up: the text before the first `:`, or all of it.
pub open spec fn lookup_part(lemma: Seq<char>) -> Seq<char> {
    if exists|i: int| #[trigger] first_colon_at(lemma, i) {
        lemma.take(choose|i: int| #[trigger] first_colon_at(lemma, i))
    } else {
        lemma
    }
}

/// The homonym id asked for: the text after the first `:`, if any.
pub open spec fn homonym_part(lemma: Seq<char>) -> Option<Seq<char>> {
    if exists|i: int| #[trigger] first_colon_at(lemma, i) {
        Some(lemma.skip((choose|i: int| #[trigger] first_colon_at(lemma, i)) + 1))
    } else {
        None
    }
}

proof fn lemma_split_parts(lemma: Seq<char>, base: Seq<char>, h: Option<Seq<char>>)
    requires
        match h {
            Some(hh) => exists|i: int| 0 <= i < lemma.len() && lemma[i] == ':'
                && (forall|j: int| 0 <= j < i ==> lemma[j] != ':')
                && base == lemma.take(i) && hh == lemma.skip(i + 1),
            None => base == lemma && forall|j: int| 0 <= j < lemma.len() ==> lemma[j] != ':',
        },
    ensures
        base == lookup_part(lemma),
        h == homonym_part(lemma),
{
    match h {
        Some(hh) => {
            let i = choose|i: int| 0 <= i < lemma.len() && lemma[i] == ':'
                && (forall|j: int| 0 <= j < i ==> lemma[j] != ':')
                && base == lemma.take(i) && hh == lemma.skip(i + 1);
            assert(first_colon_at(lemma, i));
            let c = choose|i: int| #[trigger] first_colon_at(lemma, i);
            if c < i {
                assert(lemma[c] != ':');
            }
            if i < c {
                assert(lemma[i] != ':');
            }
            assert(c == i);
        },
        None => {
            assert(!exists|i: int| #[trigger] first_colon_at(lemma, i));
        },
    }
}

/// The interpretations of all groups, one group after another.
pub open spec fn flat_interps(g: Seq<EncodedGeneratorInterpsGroup>) -> Seq<EncodedGeneratorInterpretation>
    decreases g.len(),
{
    if g.len() == 0 {
        Seq::empty()
    } else {
        flat_interps(g.drop_last()) + g.last().interpretations@
    }
}

/// The readings are the forms generated from `lemma` by the groups'
/// interpretations with the homonym id asked for, in order.
pub open spec fn forms_of_groups(v: Seq<MorphInterpretation>, g: Seq<EncodedGeneratorInterpsGroup>, lemma: Seq<char>,
    required: Option<Seq<char>>) -> bool {
    let kept = flat_interps(g).filter(|x: EncodedGeneratorInterpretation| homonym_ok(x, required));
    &&& v.len() == kept.len()
    &&& forall|k: int| 0 <= k < v.len() ==> generated_reading(#[trigger] v[k], kept[k], lemma)
}

/// The forms of `lemma` from the dictionary's stored groups: the looked-up
/// part before any `:`, the homonym id after it.
pub open spec fn generator_forms(lex: BinaryGeneratorLexicon, lemma: Seq<char>, v: Seq<MorphInterpretation>) -> bool {
    exists|g: Seq<EncodedGeneratorInterpsGroup>| #[trigger] lex.lemma_groups(lookup_part(lemma), g)
        && forms_of_groups(v, g, lookup_part(lemma), homonym_part(lemma))
}

proof fn lemma_filter_push<A>(s: Seq<A>, x: A, p: spec_fn(A) -> bool)
    ensures
        s.push(x).filter(p) == if p(x) { s.filter(p).push(x) } else { s.filter(p) },
{
    reveal(Seq::filter);
    assert(s.push(x).drop_last() =~= s);
}

/// No segment type leads anywhere from the rule automaton's state.
pub open spec fn seg_dead(data: Seq<u8>, state: SegmentationState) -> bool {
    forall|t: u8, e: bool| !(#[trigger] seg_next(data, state, t, e) matches Some(Some(_)))
}

/// The chunk's lemma is the lemma's bytes `a..b`, decoded.
pub open spec fn chunk_decodes(c: BinaryGeneratorChunk, lemma: Seq<u8>, a: int, b: int) -> bool {
    &&& valid_utf8(lemma.subrange(a, b))
    &&& c.lemma@ == decode_utf8(lemma.subrange(a, b))
}

/// Chunks `from..` cover the lemma's bytes from `pos` to the end, one after
/// another, none empty.
pub open spec fn gen_chunks_tile(chunks: Seq<BinaryGeneratorChunk>, from: int, lemma: Seq<u8>, pos: int) -> bool
    decreases chunks.len() - from,
{
    if from >= chunks.len() {
        pos == lemma.len()
    } else {
        exists|e: int| pos < e <= lemma.len() && #[trigger] chunk_decodes(chunks[from], lemma, pos, e)
            && gen_chunks_tile(chunks, from + 1, lemma, e)
    }
}

/// A split found from byte `position` on: it extends `prefix` by at least
/// one chunk, and its new chunks tile the rest of the lemma.
pub open spec fn gen_path_tiles_from(p: Seq<BinaryGeneratorChunk>, prefix: Seq<BinaryGeneratorChunk>, lemma: Seq<u8>, position: int) -> bool {
    &&& p.len() > prefix.len()
    &&& forall|k: int| 0 <= k < prefix.len() ==> (#[trigger] p[k]).lemma@ == prefix[k].lemma@
    &&& gen_chunks_tile(p, prefix.len() as int, lemma, position)
}

/// Splits the lemma's bytes from `position` into dictionary segments whose
/// segment types the rules accept in turn, adding each split that ends in
/// an accepting state to `paths`; the decoded groups go to `groups`.
pub fn collect_segmented_generator_paths(
    fsa: BinaryFsa<'_>,
    rules_fsa: &SegmentationRulesFsa<'_>,
    lemma: &[u8],
    position: usize,
    segmentation_state: SegmentationState,
    current_path: &mut Vec<BinaryGeneratorChunk>,
    paths: &mut Vec<BinaryGeneratorPath>,
    groups: &mut Vec<Vec<EncodedGeneratorInterpretation>>,
) -> (r: Result<()>)
    requires
        fsa.wf(),
        chunks_in(old(current_path)@, old(groups)@.len() as int),
        paths_in(old(paths)@, old(groups)@.len() as int),
    ensures
        r is Ok ==> final(current_path)@ == old(current_path)@,
        chunks_in(final(current_path)@, final(groups)@.len() as int),
        paths_in(final(paths)@, final(groups)@.len() as int),
        old(groups)@.len() <= final(groups)@.len(),
        r matches Err(e) ==> e is InvalidDictionary || e is InvalidArgument,
        old(paths)@.len() <= final(paths)@.len(),
        forall|p: int| 0 <= p < old(paths)@.len() ==> #[trigger] final(paths)@[p] == old(paths)@[p],
        forall|p: int| old(paths)@.len() <= p < final(paths)@.len() ==> gen_path_tiles_from(
            (#[trigger] final(paths)@[p]).chunks@, old(current_path)@, lemma@, position as int),
        seg_dead(rules_fsa.data_view(), segmentation_state) ==> final(paths)@.len() == old(paths)@.len(),
    decreases lemma@.len() - position,
{
    let ghost dead = seg_dead(rules_fsa.data_view(), segmentation_state);
    if position >= lemma.len() {
        return Ok(());
    }
    let rest = vstd::slice::slice_subrange(lemma, position, lemma.len());
    let matches = fsa.prefix_matches(rest)?;
    let mut m: usize = 0;
    while m < matches.len()
        invariant
            fsa.wf(),
            position < lemma@.len(),
            current_path@ == old(current_path)@,
            chunks_in(current_path@, groups@.len() as int),
            paths_in(paths@, groups@.len() as int),
            old(groups)@.len() <= groups@.len(),
            old(paths)@.len() <= paths@.len(),
            forall|p: int| 0 <= p < old(paths)@.len() ==> #[trigger] paths@[p] == old(paths)@[p],
            forall|p: int| old(paths)@.len() <= p < paths@.len() ==> gen_path_tiles_from(
                (#[trigger] paths@[p]).chunks@, old(current_path)@, lemma@, position as int),
            dead == seg_dead(rules_fsa.data_view(), segmentation_state),
            dead ==> paths@.len() == old(paths)@.len(),
        decreases matches@.len() - m,
    {
        let prefix_match = matches[m];
        m = m + 1;
        if prefix_match.input_end == 0 || prefix_match.input_end > lemma.len() - position {
            continue;
        }
        let end = position + prefix_match.input_end;
        let mut piece: Vec<u8> = Vec::new();
        let mut k: usize = position;
        while k < end
            invariant
                position <= k <= end <= lemma@.len(),
                piece@ == lemma@.subrange(position as int, k as int),
            decreases end - k,
        {
            piece.push(lemma[k]);
            k = k + 1;
        }
        let chunk_lemma = match string_from_utf8(piece) {
            Some(s) => s,
            None => {
                continue;
            },
        };
        let at_end = end == lemma.len();
        let raw_groups = read_raw_interps_groups(prefix_match.value)?;
        let mut g: usize = 0;
        while g < raw_groups.len()
            invariant
                fsa.wf(),
                position < end <= lemma@.len(),
                current_path@ == old(current_path)@,
                chunks_in(current_path@, groups@.len() as int),
                paths_in(paths@, groups@.len() as int),
                old(groups)@.len() <= groups@.len(),
                old(paths)@.len() <= paths@.len(),
                forall|p: int| 0 <= p < old(paths)@.len() ==> #[trigger] paths@[p] == old(paths)@[p],
                forall|p: int| old(paths)@.len() <= p < paths@.len() ==> gen_path_tiles_from(
                    (#[trigger] paths@[p]).chunks@, old(current_path)@, lemma@, position as int),
                dead == seg_dead(rules_fsa.data_view(), segmentation_state),
                dead ==> paths@.len() == old(paths)@.len(),
                valid_utf8(lemma@.subrange(position as int, end as int)),
                chunk_lemma@ == decode_utf8(lemma@.subrange(position as int, end as int)),
                at_end == (end == lemma@.len()),
            decreases raw_groups@.len() - g,
        {
            let raw_group = raw_groups[g];
            g = g + 1;
            let new_state = match rules_fsa.proceed_to_next(raw_group.segment_type, segmentation_state, at_end) {
                Ok(Some(s)) => {
                    proof {
                        assert(!dead) by {
                            assert(seg_next(rules_fsa.data_view(), segmentation_state, raw_group.segment_type, at_end) matches Some(Some(_)));
                        }
                    }
                    s
                },
                Ok(None) => {
                    continue;
                },
                Err(e) => {
                    return Err(e);
                },
            };
            let decoded = decode_generator_interpretations(raw_group)?;
            let index = groups.len();
            groups.push(decoded);
            proof {
                lemma_paths_in_mono(paths@, groups@.len() - 1, groups@.len() as int);
            }
            current_path.push(BinaryGeneratorChunk {
                lemma: owned(chunk_lemma.as_str()),
                shift_orth: new_state.shift_orth_from_previous,
                interpretations: index,
            });
            let ghost cp = current_path@;
            let ghost len0 = old(current_path)@.len() as int;
            proof {
                assert(cp == old(current_path)@.push(cp[len0]));
                assert(chunk_decodes(cp[len0], lemma@, position as int, end as int));
            }
            if at_end {
                if new_state.accepting {
                    let chunks = copy_chunks(current_path);
                    let ghost before = paths@;
                    paths.push(BinaryGeneratorPath { chunks, weak: new_state.weak });
                    proof {
                        assert forall|i: int| 0 <= i < paths@.len() implies #[trigger] chunks_in(paths@[i].chunks@, groups@.len() as int)
                            && paths@[i].chunks@.len() > 0 by {
                            if i < before.len() {
                                assert(paths@[i] == before[i]);
                            }
                        }
                        let c = chunks@;
                        assert(chunk_decodes(c[len0], lemma@, position as int, end as int));
                        assert(gen_chunks_tile(c, len0 + 1, lemma@, end as int));
                        assert(gen_chunks_tile(c, len0, lemma@, position as int));
                        assert forall|k: int| 0 <= k < len0 implies (#[trigger] c[k]).lemma@ == old(current_path)@[k].lemma@ by {
                            assert(c[k].lemma@ == cp[k].lemma@);
                        }
                        assert forall|p: int| old(paths)@.len() <= p < paths@.len() implies gen_path_tiles_from(
                            (#[trigger] paths@[p]).chunks@, old(current_path)@, lemma@, position as int) by {
                            if p < before.len() {
                                assert(paths@[p] == before[p]);
                            }
                        }
                    }
                }
            } else if !new_state.sink {
                let ghost before = paths@;
                let deeper = collect_segmented_generator_paths(fsa, rules_fsa, lemma, end, new_state, current_path, paths, groups);
                proof {
                    assert forall|p: int| old(paths)@.len() <= p < paths@.len() implies gen_path_tiles_from(
                        (#[trigger] paths@[p]).chunks@, old(current_path)@, lemma@, position as int) by {
                        if p < before.len() {
                            assert(paths@[p] == before[p]);
                        } else {
                            let c = paths@[p].chunks@;
                            assert(gen_path_tiles_from(c, cp, lemma@, end as int));
                            assert(c[len0].lemma@ == cp[len0].lemma@);
                            assert(chunk_decodes(c[len0], lemma@, position as int, end as int));
                            assert(gen_chunks_tile(c, len0, lemma@, position as int));
                            assert forall|k: int| 0 <= k < len0 implies (#[trigger] c[k]).lemma@ == old(current_path)@[k].lemma@ by {
                                assert(c[k].lemma@ == cp[k].lemma@);
                            }
                        }
                    }
                }
                deeper?;
            }
            current_path.pop();
            proof {
                assert(current_path@ =~= old(current_path)@);
            }
        }
    }
    Ok(())
}

/// Whether the interpretation has the required homonym id, if one is.
pub fn generator_homonym_matches(interp: &EncodedGeneratorInterpretation, required_homonym_id: Option<&str>) -> (r: bool)
    ensures
        r == match required_homonym_id {
            Some(h) => interp.homonym_id@ == h@,
            None => true,
        },
{
    match required_homonym_id {
        Some(required) => str_eq(interp.homonym_id.as_str(), required),
        None => true,
    }
}

/// Splits `base:homonym` at its first colon.
pub fn split_generator_lemma(lemma: &str) -> (r: (String, Option<String>))
    ensures
        match r.1 {
            Some(h) => exists|i: int| 0 <= i < lemma@.len() && lemma@[i] == ':'
                && (forall|j: int| 0 <= j < i ==> lemma@[j] != ':')
                && r.0@ == lemma@.take(i) && h@ == lemma@.skip(i + 1),
            None => r.0@ == lemma@ && forall|j: int| 0 <= j < lemma@.len() ==> lemma@[j] != ':',
        },
{
    let chars = chars_of(lemma);
    match crate::dictionary::first_colon(chars.as_slice()) {
        Some(i) => {
            assert(i < chars@.len());
            let base = string_from_char_range(chars.as_slice(), 0, i);
            let n: usize = chars.len();
            assert(i < n);
            let homonym = string_from_char_range(chars.as_slice(), i + 1, n);
            assert(lemma@.skip(i + 1) =~= lemma@.subrange(i + 1, lemma@.len() as int));
            (base, Some(homonym))
        },
        None => (owned(lemma), None),
    }
}

/// The interpretation has the homonym id asked for, if one is.
pub open spec fn homonym_ok(x: EncodedGeneratorInterpretation, required: Option<Seq<char>>) -> bool {
    match required {
        Some(h) => x.homonym_id@ == h,
        None => true,
    }
}

/// The reading's lemma carries the homonym id asked for: it is some lemma
/// followed by `:` and that id (the lemma alone for an empty id).
pub open spec fn homonym_reading(m: MorphInterpretation, required: Option<Seq<char>>) -> bool {
    match required {
        Some(h) => exists|b: Seq<char>| #[trigger] generated_lemma(b, h) == m.lemma@,
        None => true,
    }
}

/// A form generated for a lemma `base:h` with a non-empty homonym id `h`
/// has a lemma that ends with `:` and `h`.
pub proof fn law_homonym_id_kept(m: MorphInterpretation, lemma: Seq<char>, h: Seq<char>)
    requires
        homonym_part(lemma) == Some(h),
        h.len() > 0,
        homonym_reading(m, homonym_part(lemma)),
    ensures
        m.lemma@.len() > h.len(),
        m.lemma@[m.lemma@.len() - h.len() - 1] == ':',
        m.lemma@.skip(m.lemma@.len() - h.len()) == h,
{
    let b = choose|b: Seq<char>| #[trigger] generated_lemma(b, h) == m.lemma@;
    assert(m.lemma@ == b + seq![':'] + h);
    assert(m.lemma@.skip(m.lemma@.len() - h.len()) =~= h);
}

proof fn lemma_kept_homonym_reading(m: MorphInterpretation, g: Seq<EncodedGeneratorInterpretation>,
    required: Option<Seq<char>>, j: int, lemma: Seq<char>)
    requires
        0 <= j < homonym_kept(g, required).len(),
        m.lemma@ == generated_lemma(lemma, homonym_kept(g, required)[j].homonym_id@),
    ensures
        homonym_reading(m, required),
{
    g.lemma_filter_pred(|x: EncodedGeneratorInterpretation| homonym_ok(x, required), j);
    assert(homonym_ok(homonym_kept(g, required)[j], required));
    if let Some(h) = required {
        assert(generated_lemma(lemma, h) == m.lemma@);
    }
}

/// The interpretations of a group with the homonym id asked for, in order.
pub open spec fn homonym_kept(g: Seq<EncodedGeneratorInterpretation>, required: Option<Seq<char>>) -> Seq<EncodedGeneratorInterpretation> {
    g.filter(|x: EncodedGeneratorInterpretation| homonym_ok(x, required))
}

/// The reading is the form the interpretation generates from `lemma`.
pub open spec fn generated_reading(m: MorphInterpretation, x: EncodedGeneratorInterpretation, lemma: Seq<char>) -> bool {
    &&& m.start_node == 0
    &&& m.end_node == 0
    &&& Some(m.orth@) == generated_orth(lemma, x.form)
    &&& m.lemma@ == generated_lemma(lemma, x.homonym_id@)
    &&& m.tag_id == x.tag_id
    &&& m.name_id == x.name_id
    &&& m.labels_id == x.labels_id
}

/// The lemma texts of the segments, one after another.
pub open spec fn chunk_lemmas(c: Seq<BinaryGeneratorChunk>) -> Seq<char>
    decreases c.len(),
{
    if c.len() == 0 {
        Seq::empty()
    } else {
        chunk_lemmas(c.drop_last()) + c.last().lemma@
    }
}

/// The reading is the form the interpretation generates from the last
/// segment's lemma, after the earlier segments' text `prefix`, reported
/// with the whole run's lemma `all`.
pub open spec fn shifted_generated_reading(m: MorphInterpretation, x: EncodedGeneratorInterpretation, prefix: Seq<char>,
    last_lemma: Seq<char>, all: Seq<char>) -> bool {
    &&& m.start_node == 0
    &&& m.end_node == 0
    &&& generated_orth(last_lemma, x.form) is Some
    &&& m.orth@ == prefix + generated_orth(last_lemma, x.form).unwrap()
    &&& m.lemma@ == generated_lemma(all, x.homonym_id@)
    &&& m.tag_id == x.tag_id
    &&& m.name_id == x.name_id
    &&& m.labels_id == x.labels_id
}

/// Adds the forms of a single segment's interpretations.
pub fn push_plain_generator_interpretations(
    chunk: &BinaryGeneratorChunk,
    groups: &Vec<Vec<EncodedGeneratorInterpretation>>,
    result: &mut Vec<MorphInterpretation>,
    required_homonym_id: Option<&str>,
) -> (r: Result<()>)
    requires
        chunk.interpretations < groups@.len(),
    ensures
        final(result)@.len() >= old(result)@.len(),
        forall|i: int| 0 <= i < old(result)@.len() ==> #[trigger] final(result)@[i] == old(result)@[i],
        forall|i: int| old(result)@.len() <= i < final(result)@.len() ==>
            (#[trigger] final(result)@[i]).start_node == 0 && final(result)@[i].end_node == 0,
        r matches Err(e) ==> e is InvalidDictionary,
        r is Ok <==> forall|i: int| 0 <= i < groups@[chunk.interpretations as int]@.len()
            && homonym_ok(#[trigger] groups@[chunk.interpretations as int]@[i], str_option(required_homonym_id))
            ==> generated_orth(chunk.lemma@, groups@[chunk.interpretations as int]@[i].form) is Some,
        r is Ok ==> final(result)@.len() == old(result)@.len()
            + homonym_kept(groups@[chunk.interpretations as int]@, str_option(required_homonym_id)).len(),
        r is Ok ==> forall|j: int| 0 <= j < homonym_kept(groups@[chunk.interpretations as int]@, str_option(required_homonym_id)).len()
            ==> generated_reading(#[trigger] final(result)@[old(result)@.len() + j],
                homonym_kept(groups@[chunk.interpretations as int]@, str_option(required_homonym_id))[j], chunk.lemma@),
{
    let interps = &groups[chunk.interpretations];
    let ghost g = interps@;
    let ghost req = str_option(required_homonym_id);
    let ghost base = old(result)@.len();
    let mut i: usize = 0;
    proof {
        assert(g.take(0) =~= Seq::<EncodedGeneratorInterpretation>::empty());
        assert(homonym_kept(g.take(0), req) =~= Seq::<EncodedGeneratorInterpretation>::empty());
    }
    while i < interps.len()
        invariant
            i <= interps@.len(),
            g == interps@,
            g == groups@[chunk.interpretations as int]@,
            req == str_option(required_homonym_id),
            base == old(result)@.len(),
            forall|k: int| 0 <= k < old(result)@.len() ==> #[trigger] result@[k] == old(result)@[k],
            result@.len() >= old(result)@.len(),
            forall|k: int| old(result)@.len() <= k < result@.len() ==>
                (#[trigger] result@[k]).start_node == 0 && result@[k].end_node == 0,
            forall|k: int| 0 <= k < i && homonym_ok(#[trigger] g[k], req) ==> generated_orth(chunk.lemma@, g[k].form) is Some,
            result@.len() == base + homonym_kept(g.take(i as int), req).len(),
            forall|j: int| 0 <= j < homonym_kept(g.take(i as int), req).len()
                ==> generated_reading(#[trigger] result@[base + j], homonym_kept(g.take(i as int), req)[j], chunk.lemma@),
        decreases interps@.len() - i,
    {
        let ghost before = result@;
        let ghost kept_before = homonym_kept(g.take(i as int), req);
        proof {
            assert(g.take(i + 1) =~= g.take(i as int).push(g[i as int]));
            g.take(i as int).lemma_filter_push(g[i as int], |x: EncodedGeneratorInterpretation| homonym_ok(x, req));
        }
        if generator_homonym_matches(&interps[i], required_homonym_id) {
            let made = interps[i].to_morph_interpretation(chunk.lemma.as_str(), 0, 0);
            proof {
                if made is Err {
                    assert(homonym_ok(g[i as int], req));
                }
            }
            let morph = made?;
            result.push(morph);
            proof {
                assert(homonym_kept(g.take(i + 1), req) == kept_before.push(g[i as int]));
                assert forall|j: int| 0 <= j < homonym_kept(g.take(i + 1), req).len()
                    implies generated_reading(#[trigger] result@[base + j], homonym_kept(g.take(i + 1), req)[j], chunk.lemma@) by {
                    if j < kept_before.len() {
                        assert(result@[base + j] == before[base + j]);
                    }
                }
            }
        } else {
            proof {
                assert(homonym_kept(g.take(i + 1), req) == kept_before);
            }
        }
        i = i + 1;
    }
    proof {
        assert(g.take(g.len() as int) =~= g);
    }
    Ok(())
}

/// Adds the forms of a run of segments whose orth carries over: the
/// earlier segments' text, then the last segment's generated form; the
/// lemma is the whole run's text.
pub fn push_shifted_generator_interpretations(
    chunks: &[BinaryGeneratorChunk],
    groups: &Vec<Vec<EncodedGeneratorInterpretation>>,
    result: &mut Vec<MorphInterpretation>,
    required_homonym_id: Option<&str>,
) -> (r: Result<()>)
    requires
        chunks_in(chunks@, groups@.len() as int),
    ensures
        final(result)@.len() >= old(result)@.len(),
        forall|i: int| 0 <= i < old(result)@.len() ==> #[trigger] final(result)@[i] == old(result)@[i],
        forall|i: int| old(result)@.len() <= i < final(result)@.len() ==>
            (#[trigger] final(result)@[i]).start_node == 0 && final(result)@[i].end_node == 0,
        r matches Err(e) ==> e is InvalidDictionary,
        chunks@.len() == 0 ==> r is Ok && final(result)@ == old(result)@,
        chunks@.len() > 0 ==> (r is Ok <==> forall|i: int| 0 <= i < groups@[chunks@.last().interpretations as int]@.len()
            && homonym_ok(#[trigger] groups@[chunks@.last().interpretations as int]@[i], str_option(required_homonym_id))
            ==> generated_orth(chunks@.last().lemma@, groups@[chunks@.last().interpretations as int]@[i].form) is Some),
        chunks@.len() > 0 && r is Ok ==> final(result)@.len() == old(result)@.len()
            + homonym_kept(groups@[chunks@.last().interpretations as int]@, str_option(required_homonym_id)).len(),
        chunks@.len() > 0 && r is Ok ==> forall|j: int|
            0 <= j < homonym_kept(groups@[chunks@.last().interpretations as int]@, str_option(required_homonym_id)).len()
            ==> shifted_generated_reading(#[trigger] final(result)@[old(result)@.len() + j],
                homonym_kept(groups@[chunks@.last().interpretations as int]@, str_option(required_homonym_id))[j],
                chunk_lemmas(chunks@.drop_last()), chunks@.last().lemma@, chunk_lemmas(chunks@)),
{
    if chunks.len() == 0 {
        return Ok(());
    }
    let last = chunks.len() - 1;
    let mut lemma = String::new();
    let mut orth_prefix = String::new();
    let mut i: usize = 0;
    proof {
        assert(chunks@.take(0) =~= Seq::<BinaryGeneratorChunk>::empty());
    }
    while i < chunks.len()
        invariant
            i <= chunks@.len(),
            last == chunks@.len() - 1,
            lemma@ == chunk_lemmas(chunks@.take(i as int)),
            orth_prefix@ == chunk_lemmas(chunks@.take(if i <= last { i as int } else { last as int })),
        decreases chunks@.len() - i,
    {
        proof {
            let t = chunks@.take(i + 1);
            assert(t.drop_last() =~= chunks@.take(i as int));
            assert(t.last() == chunks@[i as int]);
        }
        push_str(&mut lemma, chunks[i].lemma.as_str());
        if i < last {
            push_str(&mut orth_prefix, chunks[i].lemma.as_str());
        }
        i = i + 1;
    }
    proof {
        assert(chunks@.take(chunks@.len() as int) =~= chunks@);
        assert(chunks@.take(last as int) =~= chunks@.drop_last());
    }
    let current = &chunks[last];
    let interps = &groups[current.interpretations];
    let ghost g = interps@;
    let ghost req = str_option(required_homonym_id);
    let ghost base = old(result)@.len();
    proof {
        assert(g.take(0) =~= Seq::<EncodedGeneratorInterpretation>::empty());
        assert(homonym_kept(g.take(0), req) =~= Seq::<EncodedGeneratorInterpretation>::empty());
        assert(*current == chunks@.last());
    }
    let mut k: usize = 0;
    while k < interps.len()
        invariant
            k <= interps@.len(),
            forall|j: int| 0 <= j < old(result)@.len() ==> #[trigger] result@[j] == old(result)@[j],
            result@.len() >= old(result)@.len(),
            forall|j: int| old(result)@.len() <= j < result@.len() ==>
                (#[trigger] result@[j]).start_node == 0 && result@[j].end_node == 0,
            g == interps@,
            g == groups@[chunks@.last().interpretations as int]@,
            chunks@.len() > 0,
            *current == chunks@.last(),
            lemma@ == chunk_lemmas(chunks@),
            orth_prefix@ == chunk_lemmas(chunks@.drop_last()),
            req == str_option(required_homonym_id),
            base == old(result)@.len(),
            forall|q: int| 0 <= q < k && homonym_ok(#[trigger] g[q], req) ==> generated_orth(current.lemma@, g[q].form) is Some,
            result@.len() == base + homonym_kept(g.take(k as int), req).len(),
            forall|j: int| 0 <= j < homonym_kept(g.take(k as int), req).len()
                ==> shifted_generated_reading(#[trigger] result@[base + j], homonym_kept(g.take(k as int), req)[j],
                    orth_prefix@, current.lemma@, lemma@),
        decreases interps@.len() - k,
    {
        let interp = &interps[k];
        let ghost before = result@;
        let ghost kept_before = homonym_kept(g.take(k as int), req);
        let ghost kk = k as int;
        proof {
            assert(g.take(kk + 1) =~= g.take(kk).push(g[kk]));
            g.take(kk).lemma_filter_push(g[kk], |x: EncodedGeneratorInterpretation| homonym_ok(x, req));
        }
        k = k + 1;
        if !generator_homonym_matches(interp, required_homonym_id) {
            proof {
                assert(homonym_kept(g.take(kk + 1), req) == kept_before);
            }
            continue;
        }
        let made = interp.to_morph_interpretation(current.lemma.as_str(), 0, 0);
        proof {
            if made is Err {
                assert(homonym_ok(g[kk], req));
            }
        }
        let morph = made?;
        let mut orth = owned(orth_prefix.as_str());
        push_str(&mut orth, morph.orth.as_str());
        let mut full_lemma = owned(lemma.as_str());
        if !interp.homonym_id.as_str().is_empty() {
            push_char(&mut full_lemma, ':');
            push_str(&mut full_lemma, interp.homonym_id.as_str());
        }
        result.push(MorphInterpretation {
            start_node: 0,
            end_node: 0,
            orth,
            lemma: full_lemma,
            tag_id: morph.tag_id,
            name_id: morph.name_id,
            labels_id: morph.labels_id,
        });
        proof {
            assert(homonym_kept(g.take(kk + 1), req) == kept_before.push(g[kk]));
            assert(result@[(base + kept_before.len()) as int].lemma@ =~= generated_lemma(lemma@, g[kk].homonym_id@));
            assert forall|j: int| 0 <= j < homonym_kept(g.take(kk + 1), req).len()
                implies shifted_generated_reading(#[trigger] result@[base + j], homonym_kept(g.take(kk + 1), req)[j],
                    orth_prefix@, current.lemma@, lemma@) by {
                if j < kept_before.len() {
                    assert(result@[base + j] == before[base + j]);
                }
            }
        }
    }
    proof {
        assert(g.take(g.len() as int) =~= g);
    }
    Ok(())
}

/// The forms of the splits: strong splits only, when there is one; within
/// a split, each run of carried-over segments gives one form.
/// Segment `e` ends a run: it is the last, or its form is not carried over.
pub open spec fn run_end(c: Seq<BinaryGeneratorChunk>, e: int) -> bool {
    e == c.len() - 1 || !c[e].shift_orth
}

/// Segments `s..=e` are one run: each before `e` carries its form over to
/// the next, `e` ends the run, and the segment before `s`, if any, ended
/// the previous one.
pub open spec fn gen_run(c: Seq<BinaryGeneratorChunk>, s: int, e: int) -> bool {
    &&& 0 <= s <= e < c.len()
    &&& run_end(c, e)
    &&& (s == 0 || !c[s - 1].shift_orth)
    &&& forall|k: int| s <= k < e ==> (#[trigger] c[k]).shift_orth
}

/// The form a run gives by an interpretation `x` of its last segment: the
/// segment's own form, or, for a longer run, the earlier segments' text
/// followed by it and reported with the whole run's lemma.
pub open spec fn run_form(m: MorphInterpretation, c: Seq<BinaryGeneratorChunk>, s: int, e: int, x: EncodedGeneratorInterpretation) -> bool {
    if s == e {
        generated_reading(m, x, c[e].lemma@)
    } else {
        shifted_generated_reading(m, x, chunk_lemmas(c.subrange(s, e)), c[e].lemma@, chunk_lemmas(c.subrange(s, e + 1)))
    }
}

/// Every interpretation with the homonym id asked for, of the run's last
/// segment, gives its form in `v`.
pub open spec fn run_forms_read(v: Seq<MorphInterpretation>, c: Seq<BinaryGeneratorChunk>, s: int, e: int,
    groups: Seq<Vec<EncodedGeneratorInterpretation>>, required: Option<Seq<char>>) -> bool {
    forall|j: int| 0 <= j < homonym_kept(groups[c[e].interpretations as int]@, required).len()
        ==> #[trigger] form_present(v, c, s, e, homonym_kept(groups[c[e].interpretations as int]@, required)[j])
}

/// Some reading in `v` is the run's form by `x`.
pub open spec fn form_present(v: Seq<MorphInterpretation>, c: Seq<BinaryGeneratorChunk>, s: int, e: int,
    x: EncodedGeneratorInterpretation) -> bool {
    exists|i: int| 0 <= i < v.len() && #[trigger] run_form(v[i], c, s, e, x)
}

/// Every run of the path gives all its forms in `v`.
pub open spec fn path_forms_read(v: Seq<MorphInterpretation>, path: BinaryGeneratorPath,
    groups: Seq<Vec<EncodedGeneratorInterpretation>>, required: Option<Seq<char>>) -> bool {
    forall|s: int, e: int| #[trigger] gen_run(path.chunks@, s, e) ==> run_forms_read(v, path.chunks@, s, e, groups, required)
}

/// Split `p` is kept: it is strong, or no split is.
pub open spec fn gen_path_survives(paths: Seq<BinaryGeneratorPath>, p: int) -> bool {
    &&& 0 <= p < paths.len()
    &&& !((exists|q: int| 0 <= q < paths.len() && !(#[trigger] paths[q]).weak) && paths[p].weak)
}

proof fn lemma_run_forms_grow(v: Seq<MorphInterpretation>, w: Seq<MorphInterpretation>, c: Seq<BinaryGeneratorChunk>,
    s: int, e: int, groups: Seq<Vec<EncodedGeneratorInterpretation>>, required: Option<Seq<char>>)
    requires
        run_forms_read(v, c, s, e, groups, required),
        v.len() <= w.len(),
        forall|i: int| 0 <= i < v.len() ==> #[trigger] w[i] == v[i],
    ensures
        run_forms_read(w, c, s, e, groups, required),
{
    let kept = homonym_kept(groups[c[e].interpretations as int]@, required);
    assert forall|j: int| 0 <= j < kept.len() implies #[trigger] form_present(w, c, s, e, kept[j]) by {
        assert(form_present(v, c, s, e, kept[j]));
        let i = choose|i: int| 0 <= i < v.len() && #[trigger] run_form(v[i], c, s, e, kept[j]);
        assert(w[i] == v[i]);
    }
}

proof fn lemma_path_forms_grow(v: Seq<MorphInterpretation>, w: Seq<MorphInterpretation>, path: BinaryGeneratorPath,
    groups: Seq<Vec<EncodedGeneratorInterpretation>>, required: Option<Seq<char>>)
    requires
        path_forms_read(v, path, groups, required),
        v.len() <= w.len(),
        forall|i: int| 0 <= i < v.len() ==> #[trigger] w[i] == v[i],
    ensures
        path_forms_read(w, path, groups, required),
{
    assert forall|s: int, e: int| #[trigger] gen_run(path.chunks@, s, e) implies run_forms_read(w, path.chunks@, s, e, groups, required) by {
        lemma_run_forms_grow(v, w, path.chunks@, s, e, groups, required);
    }
}

pub fn generator_paths_to_morph_interpretations(
    paths: Vec<BinaryGeneratorPath>,
    groups: &Vec<Vec<EncodedGeneratorInterpretation>>,
    required_homonym_id: Option<&str>,
) -> (r: Result<Vec<MorphInterpretation>>)
    requires
        paths_in(paths@, groups@.len() as int),
    ensures
        r matches Ok(v) ==> forall|i: int| 0 <= i < v@.len() ==> (#[trigger] v@[i]).start_node == 0 && v@[i].end_node == 0,
        paths@.len() == 0 ==> (r matches Ok(v) && v@.len() == 0),
        r matches Err(e) ==> e is InvalidDictionary,
        r matches Ok(v) ==> forall|i: int| 0 <= i < v@.len() ==> #[trigger] homonym_reading(v@[i], str_option(required_homonym_id)),
        r matches Ok(v) ==> forall|p: int| #[trigger] gen_path_survives(paths@, p)
            ==> path_forms_read(v@, paths@[p], groups@, str_option(required_homonym_id)),
{
    let ghost req = str_option(required_homonym_id);
    let mut has_strong = false;
    let mut p: usize = 0;
    while p < paths.len()
        invariant
            p <= paths@.len(),
            has_strong == exists|q: int| 0 <= q < p && !(#[trigger] paths@[q]).weak,
        decreases paths@.len() - p,
    {
        let ghost before = has_strong;
        if !paths[p].weak {
            has_strong = true;
        }
        proof {
            if before {
                let q = choose|q: int| 0 <= q < p && !(#[trigger] paths@[q]).weak;
                assert(0 <= q < p + 1 && !paths@[q].weak);
            }
            if has_strong && !before {
                assert(!paths@[p as int].weak);
            }
        }
        p = p + 1;
    }
    let mut result: Vec<MorphInterpretation> = Vec::new();
    let mut p: usize = 0;
    while p < paths.len()
        invariant
            p <= paths@.len(),
            paths_in(paths@, groups@.len() as int),
            paths@.len() == 0 ==> result@.len() == 0,
            forall|i: int| 0 <= i < result@.len() ==> (#[trigger] result@[i]).start_node == 0 && result@[i].end_node == 0,
            forall|i: int| 0 <= i < result@.len() ==> #[trigger] homonym_reading(result@[i], str_option(required_homonym_id)),
            req == str_option(required_homonym_id),
            has_strong == exists|q: int| 0 <= q < paths@.len() && !(#[trigger] paths@[q]).weak,
            forall|q: int| #[trigger] gen_path_survives(paths@, q) && q < p ==> path_forms_read(result@, paths@[q], groups@, req),
        decreases paths@.len() - p,
    {
        let path = &paths[p];
        let ghost cur = p as int;
        p = p + 1;
        if has_strong && path.weak {
            proof {
                assert(!gen_path_survives(paths@, cur));
            }
            continue;
        }
        let ghost c = path.chunks@;
        let ghost start_len = result@.len();
        let ghost start_result = result@;
        assert(chunks_in(path.chunks@, groups@.len() as int));
        let mut index: usize = 0;
        while index < path.chunks.len()
            invariant
                0 < paths@.len(),
                chunks_in(path.chunks@, groups@.len() as int),
                index <= path.chunks@.len(),
                forall|i: int| 0 <= i < result@.len() ==> (#[trigger] result@[i]).start_node == 0 && result@[i].end_node == 0,
                forall|i: int| 0 <= i < result@.len() ==> #[trigger] homonym_reading(result@[i], str_option(required_homonym_id)),
                req == str_option(required_homonym_id),
                c == path.chunks@,
                c == paths@[cur].chunks@,
                0 <= cur < p,
                p <= paths@.len(),
                start_len <= result@.len(),
                forall|i: int| 0 <= i < start_len ==> #[trigger] result@[i] == start_result[i],
                start_result.len() == start_len,
                forall|q: int| #[trigger] gen_path_survives(paths@, q) && q < cur ==> path_forms_read(start_result, paths@[q], groups@, req),
                index == 0 || run_end(c, index - 1),
                forall|s: int, e: int| #[trigger] gen_run(c, s, e) && e < index ==> run_forms_read(result@, c, s, e, groups@, req),
            decreases path.chunks@.len() - index,
        {
            let mut shifted_end = index;
            while shifted_end + 1 < path.chunks.len() && path.chunks[shifted_end].shift_orth
                invariant
                    index <= shifted_end < path.chunks@.len(),
                    path.chunks@.len() <= usize::MAX,
                    forall|k: int| index <= k < shifted_end ==> (#[trigger] path.chunks@[k]).shift_orth,
                decreases path.chunks@.len() - shifted_end,
            {
                shifted_end = shifted_end + 1;
            }
            let ghost ix = index as int;
            let ghost se = shifted_end as int;
            let ghost before_run = result@;
            proof {
                assert(run_end(c, se));
                assert(gen_run(c, ix, se));
            }
            if shifted_end > index {
                let run = vstd::slice::slice_subrange(path.chunks.as_slice(), index, shifted_end + 1);
                assert(chunks_in(run@, groups@.len() as int)) by {
                    assert forall|i: int| 0 <= i < run@.len() implies (#[trigger] run@[i]).interpretations < groups@.len() by {
                        assert(run@[i] == path.chunks@[index + i]);
                    }
                }
                let ghost before = result@;
                push_shifted_generator_interpretations(run, groups, &mut result, required_homonym_id)?;
                proof {
                    let g = groups@[run@.last().interpretations as int]@;
                    let req = str_option(required_homonym_id);
                    assert forall|i: int| 0 <= i < result@.len() implies #[trigger] homonym_reading(result@[i], req) by {
                        if i < before.len() {
                            assert(result@[i] == before[i]);
                        } else {
                            let j = i - before.len();
                            assert(shifted_generated_reading(result@[before.len() + j], homonym_kept(g, req)[j],
                                chunk_lemmas(run@.drop_last()), run@.last().lemma@, chunk_lemmas(run@)));
                            lemma_kept_homonym_reading(result@[i], g, req, j, chunk_lemmas(run@));
                        }
                    }
                    assert(run@ == c.subrange(ix, se + 1));
                    assert(run@.drop_last() =~= c.subrange(ix, se));
                    assert(run@.last() == c[se]);
                    let kept = homonym_kept(groups@[c[se].interpretations as int]@, req);
                    assert forall|j: int| 0 <= j < kept.len() implies #[trigger] form_present(result@, c, ix, se, kept[j]) by {
                        assert(shifted_generated_reading(result@[before.len() + j], kept[j],
                            chunk_lemmas(run@.drop_last()), run@.last().lemma@, chunk_lemmas(run@)));
                        assert(run_form(result@[before.len() + j], c, ix, se, kept[j]));
                    }
                }
            } else {
                let ghost before = result@;
                push_plain_generator_interpretations(&path.chunks[index], groups, &mut result, required_homonym_id)?;
                proof {
                    let c = path.chunks@[index as int];
                    let g = groups@[c.interpretations as int]@;
                    let req = str_option(required_homonym_id);
                    assert forall|i: int| 0 <= i < result@.len() implies #[trigger] homonym_reading(result@[i], req) by {
                        if i < before.len() {
                            assert(result@[i] == before[i]);
                        } else {
                            let j = i - before.len();
                            assert(generated_reading(result@[before.len() + j], homonym_kept(g, req)[j], c.lemma@));
                            lemma_kept_homonym_reading(result@[i], g, req, j, c.lemma@);
                        }
                    }
                    let kept = homonym_kept(g, req);
                    assert forall|j: int| 0 <= j < kept.len() implies #[trigger] form_present(result@, path.chunks@, ix, se, kept[j]) by {
                        assert(generated_reading(result@[before.len() + j], kept[j], c.lemma@));
                        assert(run_form(result@[before.len() + j], path.chunks@, ix, se, kept[j]));
                    }
                }
            }
            proof {
                assert(run_forms_read(result@, c, ix, se, groups@, req));
                assert forall|i: int| 0 <= i < before_run.len() implies #[trigger] result@[i] == before_run[i] by {}
                assert forall|s: int, e: int| #[trigger] gen_run(c, s, e) && e < se + 1
                    implies run_forms_read(result@, c, s, e, groups@, req) by {
                    if e < ix {
                        lemma_run_forms_grow(before_run, result@, c, s, e, groups@, req);
                    } else {
                        if e < se {
                            assert(c[e].shift_orth);
                        }
                        assert(e == se);
                        if s > ix {
                            assert(c[s - 1].shift_orth);
                        }
                        if s < ix {
                            assert(c[ix - 1].shift_orth);
                        }
                        assert(s == ix);
                    }
                }
                assert forall|i: int| 0 <= i < start_len implies #[trigger] result@[i] == start_result[i] by {
                    assert(result@[i] == before_run[i]);
                }
            }
            index = shifted_end + 1;
        }
        proof {
            assert(path_forms_read(result@, paths@[cur], groups@, req));
            assert(gen_path_survives(paths@, cur));
            assert forall|q: int| #[trigger] gen_path_survives(paths@, q) && q < p implies path_forms_read(result@, paths@[q], groups@, req) by {
                if q < cur {
                    lemma_path_forms_grow(start_result, result@, paths@[q], groups@, req);
                }
            }
        }
    }
    Ok(result)
}

impl BinaryGeneratorLexicon {
    pub closed spec fn resolver_view(&self) -> IdResolver {
        self.resolver
    }

    pub closed spec fn id_view(&self) -> Seq<char> {
        self.data.spec_dict_id()
    }

    /// The values the rule variants give an option.
    pub closed spec fn option_values_view(&self, option: Seq<char>) -> Set<Seq<char>> {
        option_values(self.segmentation_metadata, option)
    }

    /// What the automaton gives for a lemma: `None` where its bytes are
    /// malformed, else the entry found, if any.
    pub open spec fn recognized(&self, lemma: Seq<char>) -> Option<Option<(int, Seq<u8>)>> {
        fsa_recognize_start(self.fsa_kind_view(), self.fsa_tsize_view(), self.fsa_data_view(), encode_utf8(lemma))
    }

    /// The rule automaton the preset selects, if any, has no transition
    /// from its start.
    pub closed spec fn no_rule_transitions(&self, preset: SegmentationPreset) -> bool {
        forall|f: Option<Seq<u8>>| #[trigger] self.fsa_view_for(preset, f) ==> no_initial_transitions(f)
    }

    /// The decoded groups stored for the lemma: none when it is not in the
    /// dictionary.
    pub open spec fn lemma_groups(&self, lemma: Seq<char>, g: Seq<EncodedGeneratorInterpsGroup>) -> bool {
        match self.recognized(lemma) {
            Some(None) => g.len() == 0,
            Some(Some(m)) => generator_groups_decoded(m.1, g),
            None => false,
        }
    }

    /// Whether the dictionary has segmentation rules.
    pub closed spec fn has_rules(&self) -> bool {
        self.segmentation_metadata.fsa_variants@.len() > 0
    }

    /// Whether `f` is the rule automaton the preset selects.
    pub closed spec fn fsa_view_for(&self, preset: SegmentationPreset, f: Option<Seq<u8>>) -> bool {
        fsa_selected(self.segmentation_metadata, self.default_segmentation_variant_index, preset, f)
    }

    /// Whether the rules settle the preset: there are none, a variant
    /// matches it, or it chooses no option and there is a default variant.
    pub closed spec fn rules_cover(&self, preset: SegmentationPreset) -> bool {
        ||| self.segmentation_metadata.fsa_variants@.len() == 0
        ||| variant_selected(self.segmentation_metadata, preset)
        ||| (preset.spec_aggl() is None && preset.spec_praet() is None && self.default_segmentation_variant_index is Some)
    }

    /// Whether the segmentation section accepts the preset after `option`
    /// was set.
    pub closed spec fn accepts_view(&self, preset: SegmentationPreset, option: Seq<char>) -> bool {
        accepts_option(self.segmentation_metadata, preset, option)
    }

    /// The default value the segmentation section gives an option.
    pub closed spec fn default_option_view(&self, option: Seq<char>) -> Option<Seq<char>> {
        default_option(self.segmentation_metadata, option)
    }

    /// The automaton's encoding (0 Simple, 1 VLength1, 2 VLength2).
    pub closed spec fn fsa_kind_view(&self) -> int {
        self.data.fsa_kind()
    }

    /// The size of a Simple automaton's transitions.
    pub closed spec fn fsa_tsize_view(&self) -> int {
        self.data.fsa_tsize()
    }

    /// The automaton's bytes.
    pub closed spec fn fsa_data_view(&self) -> Seq<u8> {
        self.data.spec_fsa_data()
    }

    pub closed spec fn copyright_view(&self) -> Seq<char> {
        self.data.spec_copyright()
    }

    pub closed spec fn wf(&self) -> bool {
        &&& self.data.wf()
        &&& self.resolver.wf()
        &&& self.segmentation_metadata.wf()
        &&& (self.default_segmentation_variant_index matches Some(i) ==> i < self.segmentation_metadata.fsa_variants@.len())
    }

    /// A generator over the dictionary file's bytes.
    pub fn from_bytes(bytes: Vec<u8>) -> (r: Result<Self>)
        ensures
            r matches Ok(l) ==> l.wf(),
            r is Ok ==> prologue_ok(bytes@) && metadata_strings(bytes@) is Some,
            r matches Ok(l) ==> l.fsa_data_view() == bytes@.subrange(10, fsa_end_of(bytes@)),
            r is Ok ==> dictionary_sections_ok(bytes@),
            dictionary_sections_ok(bytes@) && implementation_of(bytes@[5]) is Some
                && size_checked_fsa_ok(implementation_of(bytes@[5])->Some_0, bytes@.subrange(10, fsa_end_of(bytes@))) ==> r is Ok,
            r matches Err(e) ==> e is InvalidDictionary,
    {
        let data = BinaryDictionaryData::from_bytes(bytes)?;
        Self::from_data(data)
    }

    /// A generator over a dictionary, after checking its automaton, id
    /// tables and segmentation section.
    pub fn from_data(data: BinaryDictionaryData) -> (r: Result<Self>)
        requires
            data.wf(),
        ensures
            r matches Ok(l) ==> l.wf(),
            r matches Ok(l) ==> l.fsa_data_view() == data.spec_fsa_data(),
            r is Ok ==> id_tables_at(data.spec_bytes(), data.spec_id_resolver_offset(), data.spec_rules_data_start()) is Some
                && metadata_records(data.spec_rules_data()) is Some,
            id_tables_at(data.spec_bytes(), data.spec_id_resolver_offset(), data.spec_rules_data_start()) is Some
                && metadata_records(data.spec_rules_data()) is Some
                && size_checked_fsa_ok(data.spec_implementation(), data.spec_fsa_data()) ==> r is Ok,
            r matches Err(e) ==> e is InvalidDictionary,
    {
        let _ = data.fsa()?;
        let resolver = data.id_resolver()?;
        let segmentation_metadata = data.segmentation_metadata()?;
        let default_segmentation_variant_index = default_segmentation_fsa_variant_index(&segmentation_metadata);
        Ok(BinaryGeneratorLexicon { data, resolver, segmentation_metadata, default_segmentation_variant_index })
    }

    /// The decoded groups stored for the whole lemma, none where it is not
    /// in the dictionary.
    pub fn synthesize_encoded_groups(&self, lemma: &str) -> (r: Result<Vec<EncodedGeneratorInterpsGroup>>)
        requires
            self.wf(),
        ensures
            ({
                let found = fsa_recognize_start(self.fsa_kind_view(), self.fsa_tsize_view(), self.fsa_data_view(),
                    encode_utf8(lemma@));
                &&& r is Ok <==> (found == Some(None::<(int, Seq<u8>)>)
                    || (found matches Some(Some(m)) && generator_groups_ok(m.1)))
                &&& r matches Ok(g) ==> (found == Some(None::<(int, Seq<u8>)>) && g@.len() == 0)
                    || (found matches Some(Some(m)) && generator_groups_decoded(m.1, g@))
                &&& r matches Err(e) ==> e is InvalidDictionary
            }),
    {
        let fsa = self.data.fsa_unchecked();
        match fsa.try_recognize(lemma.as_bytes())? {
            Some(m) => decode_generator_interps_groups(m.value),
            None => Ok(Vec::new()),
        }
    }

    /// The rule automaton for the preset.
    pub fn segmentation_fsa(&self, segmentation: &SegmentationPreset) -> (r: Result<Option<&[u8]>>)
        requires
            self.wf(),
        ensures
            r matches Err(e) ==> e is InvalidArgument,
            r matches Ok(f) ==> self.fsa_view_for(*segmentation, bytes_option(f)),
            self.rules_cover(*segmentation) ==> r is Ok,
    {
        if segmentation.aggl().is_none() && segmentation.praet().is_none() {
            match self.default_segmentation_variant_index {
                Some(index) => {
                    return Ok(Some(self.segmentation_metadata.fsa_variants[index].fsa.as_slice()));
                },
                None => {},
            }
        }
        segmentation_fsa_for_options(&self.segmentation_metadata, segmentation)
    }

    /// The forms of the lemma (`base` or `base:homonym`) found by splitting
    /// it into segments that the rules allow.
    pub fn synthesize_with_segmentation(&self, lemma: &str, segmentation: &SegmentationPreset) -> (r: Result<Vec<MorphInterpretation>>)
        requires
            self.wf(),
        ensures
            r matches Ok(v) ==> forall|i: int| 0 <= i < v@.len() ==> (#[trigger] v@[i]).start_node == 0 && v@[i].end_node == 0,
            !self.has_rules() ==> (r matches Ok(v) && v@.len() == 0),
            self.no_rule_transitions(*segmentation) ==> (r matches Ok(v) ==> v@.len() == 0),
            r matches Ok(v) ==> forall|i: int| 0 <= i < v@.len() ==> #[trigger] homonym_reading(v@[i], homonym_part(lemma@)),
    {
        let (lookup_lemma, required_homonym_id) = split_generator_lemma(lemma);
        proof {
            let h: Option<Seq<char>> = match &required_homonym_id { Some(x) => Some(x@), None => None };
            lemma_split_parts(lemma@, lookup_lemma@, h);
        }
        let segmentation_fsa = match self.segmentation_fsa(segmentation)? {
            Some(f) => f,
            None => {
                return Ok(Vec::new());
            },
        };
        proof {
            let d = segmentation_fsa@;
            if self.no_rule_transitions(*segmentation) {
                assert(self.fsa_view_for(*segmentation, Some(d)));
                assert(no_initial_transitions(Some(d)));
                assert forall|t: u8, e: bool| !(#[trigger] seg_next(d, SegmentationState::spec_initial(), t, e) matches Some(Some(_))) by {
                    if seg_table_fits(d, 0) {
                        assert(d[1] == 0);
                        assert(seg_find(d, 2, d[1] as nat, t) is None);
                    }
                }
            }
        }
        if lookup_lemma.as_str().is_empty() {
            return Ok(Vec::new());
        }
        let rules_fsa = SegmentationRulesFsa::from_data_unchecked(segmentation_fsa);
        let fsa = self.data.fsa_unchecked();
        let mut paths: Vec<BinaryGeneratorPath> = Vec::new();
        let mut current_path: Vec<BinaryGeneratorChunk> = Vec::new();
        let mut groups: Vec<Vec<EncodedGeneratorInterpretation>> = Vec::new();
        collect_segmented_generator_paths(
            fsa,
            &rules_fsa,
            lookup_lemma.as_str().as_bytes(),
            0,
            rules_fsa.initial_state(),
            &mut current_path,
            &mut paths,
            &mut groups,
        )?;
        let required = match &required_homonym_id {
            Some(h) => Some(h.as_str()),
            None => None,
        };
        assert(str_option(required) == homonym_part(lemma@));
        generator_paths_to_morph_interpretations(paths, &groups, required)
    }

    /// Whether the preset's rule automaton has a transition from its start.
    pub fn has_segmentation_transitions(&self, segmentation: &SegmentationPreset) -> (r: Result<bool>)
        requires
            self.wf(),
        ensures
            r matches Err(e) ==> e is InvalidArgument,
            !self.has_rules() ==> r matches Ok(false),
            self.no_rule_transitions(*segmentation) ==> !(r matches Ok(true)),
    {
        let f = self.segmentation_fsa(segmentation)?;
        proof {
            if self.no_rule_transitions(*segmentation) {
                assert(self.fsa_view_for(*segmentation, bytes_option(f)));
            }
        }
        Ok(has_initial_segmentation_transitions(f))
    }

    pub fn validate_segmentation(&self, segmentation: &SegmentationPreset, option: &str, value: &str) -> (r: Result<()>)
        requires
            self.wf(),
        ensures
            r is Ok <==> self.accepts_view(*segmentation, option@),
            r matches Err(e) ==> e is InvalidArgument,
    {
        validate_segmentation_options(&self.segmentation_metadata, segmentation, option, value)
    }
}

impl Lexicon for BinaryGeneratorLexicon {
    open spec fn lexicon_wf(&self) -> bool {
        self.wf()
    }

    open spec fn spec_resolver(&self) -> IdResolver {
        self.resolver_view()
    }

    open spec fn spec_id(&self) -> Seq<char> {
        self.id_view()
    }

    open spec fn spec_copyright(&self) -> Seq<char> {
        self.copyright_view()
    }

    fn id(&self) -> &str {
        self.data.dict_id()
    }

    fn copyright(&self) -> &str {
        self.data.copyright()
    }

    fn resolver(&self) -> (r: &IdResolver) {
        &self.resolver
    }

    open spec fn spec_lookup(&self, orth: Seq<char>) -> Option<Seq<EntryView>> {
        None
    }

    open spec fn spec_synthesize(&self, lemma: Seq<char>) -> Option<Seq<EntryView>> {
        None
    }

    fn lookup(&self, orth: &str) -> Option<&[DictionaryEntry]> {
        None
    }

    fn synthesize(&self, lemma: &str) -> Option<&[DictionaryEntry]> {
        None
    }

    fn default_aggl(&self) -> (r: Option<&str>)
        ensures
            str_option(r) == self.default_option_view("aggl"@),
    {
        self.segmentation_metadata.default_options.get("aggl")
    }

    fn default_praet(&self) -> (r: Option<&str>)
        ensures
            str_option(r) == self.default_option_view("praet"@),
    {
        self.segmentation_metadata.default_options.get("praet")
    }

    fn available_aggl_options(&self) -> (r: Vec<String>)
        ensures
            sorted_listing(str_views(r@), self.option_values_view("aggl"@)),
    {
        available_options_vec(&self.segmentation_metadata, "aggl")
    }

    fn available_praet_options(&self) -> (r: Vec<String>)
        ensures
            sorted_listing(str_views(r@), self.option_values_view("praet"@)),
    {
        available_options_vec(&self.segmentation_metadata, "praet")
    }

    fn validate_segmentation(&self, segmentation: &SegmentationPreset, option: &str, value: &str) -> (r: Result<()>)
        ensures
            r is Ok <==> self.accepts_view(*segmentation, option@),
    {
        validate_segmentation_options(&self.segmentation_metadata, segmentation, option, value)
    }

    /// The forms found by segmentation; where there are none and the rules
    /// have no start, the forms stored for the whole lemma.
    fn synthesize_interpretations(&self, lemma: &str, segmentation: &SegmentationPreset) -> (r: Result<Vec<MorphInterpretation>>)
        ensures
            !self.has_rules() && (forall|j: int| 0 <= j < lemma@.len() ==> lemma@[j] != ':')
                && self.recognized(lemma@) == Some(None::<(int, Seq<u8>)>) ==> (r matches Ok(v) && v@.len() == 0),
            self.no_rule_transitions(*segmentation) ==> (r matches Ok(v) ==> generator_forms(*self, lemma@, v@)),
            r matches Ok(v) ==> forall|i: int| 0 <= i < v@.len() ==> #[trigger] homonym_reading(v@[i], homonym_part(lemma@)),
    {
        let ghost absent = !self.has_rules() && (forall|j: int| 0 <= j < lemma@.len() ==> lemma@[j] != ':')
                    && self.recognized(lemma@) == Some(None::<(int, Seq<u8>)>);
        let segmented = self.synthesize_with_segmentation(lemma, segmentation)?;
        if segmented.len() > 0 {
            return Ok(segmented);
        }
        if self.has_segmentation_transitions(segmentation)? {
            return Ok(Vec::new());
        }
        let (lookup_lemma, required_homonym_id) = split_generator_lemma(lemma);
        let required = match &required_homonym_id {
            Some(h) => Some(h.as_str()),
            None => None,
        };
        let ghost req: Option<Seq<char>> = match required { Some(h) => Some(h@), None => None };
        proof {
            if absent {
                assert(required_homonym_id is None);
                assert(lookup_lemma@ == lemma@);
            }
            match &required_homonym_id {
                Some(h) => {
                    let i = choose|i: int| 0 <= i < lemma@.len() && lemma@[i] == ':'
                        && (forall|j: int| 0 <= j < i ==> lemma@[j] != ':')
                        && lookup_lemma@ == lemma@.take(i) && h@ == lemma@.skip(i + 1);
                    assert(first_colon_at(lemma@, i));
                    let c = choose|i: int| #[trigger] first_colon_at(lemma@, i);
                    if c < i {
                        assert(lemma@[c] != ':');
                    }
                    if i < c {
                        assert(lemma@[i] != ':');
                    }
                    assert(c == i);
                },
                None => {
                    assert(!exists|i: int| #[trigger] first_colon_at(lemma@, i));
                },
            }
            assert(lookup_lemma@ == lookup_part(lemma@));
            assert(req == homonym_part(lemma@));
        }
        let groups = self.synthesize_encoded_groups(lookup_lemma.as_str())?;
        let ghost keep = |x: EncodedGeneratorInterpretation| homonym_ok(x, req);
        let mut result: Vec<MorphInterpretation> = Vec::new();
        let mut g: usize = 0;
        proof {
            assert(groups@.take(0) =~= Seq::<EncodedGeneratorInterpsGroup>::empty());
            reveal(Seq::filter);
            assert(flat_interps(groups@.take(0)).filter(keep) =~= Seq::<EncodedGeneratorInterpretation>::empty());
        }
        while g < groups.len()
            invariant
                g <= groups@.len(),
                absent == (!self.has_rules() && (forall|j: int| 0 <= j < lemma@.len() ==> lemma@[j] != ':')
                    && self.recognized(lemma@) == Some(None::<(int, Seq<u8>)>)),
                absent ==> groups@.len() == 0 && result@.len() == 0,
                keep == |x: EncodedGeneratorInterpretation| homonym_ok(x, req),
                req == (match required { Some(h) => Some(h@), None => None::<Seq<char>> }),
                result@.len() == flat_interps(groups@.take(g as int)).filter(keep).len(),
                forall|k: int| 0 <= k < result@.len() ==> generated_reading(#[trigger] result@[k],
                    flat_interps(groups@.take(g as int)).filter(keep)[k], lookup_lemma@),
            decreases groups@.len() - g,
        {
            let interps = &groups[g].interpretations;
            let ghost pre = flat_interps(groups@.take(g as int));
            let mut i: usize = 0;
            proof {
                assert(interps@.take(0) =~= Seq::<EncodedGeneratorInterpretation>::empty());
                assert(pre + interps@.take(0) =~= pre);
            }
            while i < interps.len()
                invariant
                    i <= interps@.len(),
                    !absent,
                    absent == (!self.has_rules() && (forall|j: int| 0 <= j < lemma@.len() ==> lemma@[j] != ':')
                    && self.recognized(lemma@) == Some(None::<(int, Seq<u8>)>)),
                    keep == |x: EncodedGeneratorInterpretation| homonym_ok(x, req),
                    req == (match required { Some(h) => Some(h@), None => None::<Seq<char>> }),
                    result@.len() == (pre + interps@.take(i as int)).filter(keep).len(),
                    forall|k: int| 0 <= k < result@.len() ==> generated_reading(#[trigger] result@[k],
                        (pre + interps@.take(i as int)).filter(keep)[k], lookup_lemma@),
                decreases interps@.len() - i,
            {
                let ghost before = result@;
                let ghost s0 = pre + interps@.take(i as int);
                proof {
                    assert(pre + interps@.take(i + 1) =~= s0.push(interps@[i as int]));
                    lemma_filter_push(s0, interps@[i as int], keep);
                }
                if generator_homonym_matches(&interps[i], required) {
                    let m = interps[i].to_morph_interpretation(lookup_lemma.as_str(), 0, 0)?;
                    result.push(m);
                    proof {
                        assert forall|k: int| 0 <= k < result@.len() implies generated_reading(#[trigger] result@[k],
                            (pre + interps@.take(i + 1)).filter(keep)[k], lookup_lemma@) by {
                            if k < before.len() {
                                assert(result@[k] == before[k]);
                            }
                        }
                    }
                }
                i = i + 1;
            }
            proof {
                assert(interps@.take(interps@.len() as int) =~= interps@);
                assert(groups@.take(g + 1).drop_last() =~= groups@.take(g as int));
                assert(flat_interps(groups@.take(g + 1)) == pre + interps@);
            }
            g = g + 1;
        }
        proof {
            assert(groups@.take(groups@.len() as int) =~= groups@);
            assert(self.lemma_groups(lookup_part(lemma@), groups@));
            let all = flat_interps(groups@);
            assert(all.filter(keep) == homonym_kept(all, req));
            assert forall|k: int| 0 <= k < result@.len() implies #[trigger] homonym_reading(result@[k], homonym_part(lemma@)) by {
                assert(generated_reading(result@[k], all.filter(keep)[k], lookup_lemma@));
                lemma_kept_homonym_reading(result@[k], all, req, k, lookup_lemma@);
            }
        }
        Ok(result)
    }
}

} // verus!
