//! The binary analyzer: the readings of a word, found by splitting its
//! lowercased form into dictionary segments that the segmentation rules
//! allow, with letter case checked against each interpretation.
use vstd::prelude::*;
use vstd::utf8::encode_utf8;
use vstd::seq_lib::lemma_flatten_concat;
use crate::config::SegmentationPreset;
use crate::dictionary::{DictionaryEntry, EntryView};
use crate::error::{Error, Result};
use crate::id_resolver::IdResolver;
use crate::ports::{str_option, Lexicon};
use crate::ordered::str_views;
use crate::text::{chars_of, owned, push_str, str_eq, string_from_char_range};
use crate::types::{move_readings, moved_reading, CaseHandling, MorphInterpretation};
use super::case::{analyzer_lemma, 
    decode_analyzer_lemma_with_prefix_context_len, decode_analyzer_prefix_lemma_for_form, flags_match,
    lowercase_with_original_boundaries, lowered, AnalyzerOrthContext, NormalizedInput, byte_offset,
    lemma_byte_offset_increasing, decoded_range, lemma_range_by, lemma_range_by_pattern,
};
use super::cache::{template_hash, word_template_hash, WordTemplateCache, WordTemplateCacheKey};
use super::data::{fsa_end_of, id_tables_at, implementation_of, metadata_strings, prologue_ok, size_checked_fsa_ok, BinaryDictionaryData};
use super::read::be_u32;
use super::fsa::{BinaryFsa, fsa_recognize_start};
use super::graph::InflexionGraph;
use super::interps::{
    analyzer_groups_decoded, analyzer_groups_ok,
    decode_analyzer_interps_groups, decode_binary_analyzer_interpretations, read_raw_interps_groups,
    BinaryAnalyzerInterpretation, EncodedAnalyzerInterpretation, EncodedAnalyzerInterpsGroup,
};
use super::segmentation::{
    option_values, default_option, sorted_listing,
    available_options_vec, default_segmentation_fsa_variant_index, has_initial_segmentation_transitions,
    segmentation_fsa_for_options, validate_segmentation_options, accepts_option, bytes_option, fsa_selected, variant_selected, SegmentationMetadata, SegmentationRulesFsa,
    SegmentationState, no_initial_transitions, metadata_records,
};

verus! {

/// The cache code of an `aggl` value: 1, 2, 3 for `strict`, `permissive`,
/// `isolated`; 0 for none; `None` for another value.
pub fn aggl_cache_code(value: Option<&str>) -> (r: Option<u16>)
    ensures
        value is None ==> r == Some(0u16),
        value matches Some(v) ==> r == (if v@ == "strict"@ { Some(1u16) } else if v@ == "permissive"@ { Some(2u16) }
            else if v@ == "isolated"@ { Some(3u16) } else { None }),
{
    match value {
        None => Some(0),
        Some(v) => if str_eq(v, "strict") {
            Some(1)
        } else if str_eq(v, "permissive") {
            Some(2)
        } else if str_eq(v, "isolated") {
            Some(3)
        } else {
            None
        },
    }
}

/// The cache code of a `praet` value: 1, 2 for `split`, `composite`; 0 for
/// none; `None` for another value.
pub fn praet_cache_code(value: Option<&str>) -> (r: Option<u16>)
    ensures
        value is None ==> r == Some(0u16),
        value matches Some(v) ==> r == (if v@ == "split"@ { Some(1u16) } else if v@ == "composite"@ { Some(2u16) } else { None }),
{
    match value {
        None => Some(0),
        Some(v) => if str_eq(v, "split") {
            Some(1)
        } else if str_eq(v, "composite") {
            Some(2)
        } else {
            None
        },
    }
}

/// An analyzer over a binary dictionary.
#[derive(Debug, Clone)]
pub struct BinaryAnalyzerLexicon {
    data: BinaryDictionaryData,
    resolver: IdResolver,
    segmentation_metadata: SegmentationMetadata,
    default_segmentation_variant_index: Option<usize>,
}

/// One segment of a word on a segmentation path.
#[derive(Debug, Clone)]
pub struct BinaryAnalyzerChunk {
    pub orth: String,
    pub original_start: usize,
    pub original_end: usize,
    pub shift_orth: bool,
    pub segment_type: u8,
    /// The automaton state whose payload holds the segment's group.
    pub group_state: usize,
    /// The group's place in that payload.
    pub group_index: usize,
    /// Whether any reading of the group accepts the segment's letter case.
    pub case_matches: bool,
    /// Where the decoded readings are kept.
    pub interpretations: usize,
}

/// A split of a word into segments that the rules accept.
#[derive(Debug, Clone)]
pub struct BinaryAnalyzerPath {
    pub chunks: Vec<BinaryAnalyzerChunk>,
    pub weak: bool,
}

/// The paths of a word and the decoded groups they refer to.
#[derive(Debug)]
pub struct BinaryAnalyzerWordPaths {
    pub paths: Vec<BinaryAnalyzerPath>,
    pub groups: Vec<Vec<BinaryAnalyzerInterpretation>>,
}

/// Every chunk refers to a decoded group.
pub open spec fn achunks_in(chunks: Seq<BinaryAnalyzerChunk>, groups: int) -> bool {
    forall|i: int| 0 <= i < chunks.len() ==> (#[trigger] chunks[i]).interpretations < groups
}

pub open spec fn apaths_in(paths: Seq<BinaryAnalyzerPath>, groups: int) -> bool {
    forall|i: int| 0 <= i < paths.len() ==> #[trigger] achunks_in(paths[i].chunks@, groups)
        && paths[i].chunks@.len() > 0
}

/// Every decoded reading is well formed.
pub open spec fn groups_wf(groups: Seq<Vec<BinaryAnalyzerInterpretation>>) -> bool {
    forall|g: int, i: int| 0 <= g < groups.len() && 0 <= i < groups[g]@.len() ==> (#[trigger] groups[g]@[i]).wf()
}

impl BinaryAnalyzerWordPaths {
    pub open spec fn wf(&self) -> bool {
        apaths_in(self.paths@, self.groups@.len() as int) && groups_wf(self.groups@)
    }

    pub fn empty() -> (r: Self)
        ensures
            r.wf(),
            r.paths@.len() == 0,
    {
        BinaryAnalyzerWordPaths { paths: Vec::new(), groups: Vec::new() }
    }
}

proof fn lemma_apaths_in_mono(paths: Seq<BinaryAnalyzerPath>, a: int, b: int)
    requires
        apaths_in(paths, a),
        a <= b,
    ensures
        apaths_in(paths, b),
{
    assert forall|i: int| 0 <= i < paths.len() implies #[trigger] achunks_in(paths[i].chunks@, b)
        && paths[i].chunks@.len() > 0 by {
        assert(achunks_in(paths[i].chunks@, a));
        let c = paths[i].chunks@;
        assert forall|j: int| 0 <= j < c.len() implies (#[trigger] c[j]).interpretations < b by {
            assert(c[j].interpretations < a);
        }
    }
}

/// A chunk with the same content.
pub fn copy_analyzer_chunk(c: &BinaryAnalyzerChunk) -> (r: BinaryAnalyzerChunk)
    ensures
        r.orth@ == c.orth@,
        r.original_start == c.original_start,
        r.original_end == c.original_end,
        r.shift_orth == c.shift_orth,
        r.segment_type == c.segment_type,
        r.group_state == c.group_state,
        r.group_index == c.group_index,
        r.case_matches == c.case_matches,
        r.interpretations == c.interpretations,
{
    BinaryAnalyzerChunk {
        orth: owned(c.orth.as_str()),
        original_start: c.original_start,
        original_end: c.original_end,
        shift_orth: c.shift_orth,
        segment_type: c.segment_type,
        group_state: c.group_state,
        group_index: c.group_index,
        case_matches: c.case_matches,
        interpretations: c.interpretations,
    }
}

/// Two chunks hold the same text at the same place.
pub open spec fn same_span(x: BinaryAnalyzerChunk, y: BinaryAnalyzerChunk) -> bool {
    &&& x.orth@ == y.orth@
    &&& x.original_start == y.original_start
    &&& x.original_end == y.original_end
}

/// The chunk's text is the original word from character `a` to `b`, and
/// its offsets are the bytes where those characters start.
pub open spec fn chunk_span(c: BinaryAnalyzerChunk, n: NormalizedInput, a: int, b: int) -> bool {
    &&& 0 <= a <= b <= n.original_view().len()
    &&& c.original_start == byte_offset(n.original_view(), a)
    &&& c.original_end == byte_offset(n.original_view(), b)
    &&& c.orth@ == n.original_view().subrange(a, b)
}

/// Chunks `from..` cover the word from character `a` to its end, one after
/// another, each starting where the one before ended.
pub open spec fn chunks_tile_from(chunks: Seq<BinaryAnalyzerChunk>, from: int, n: NormalizedInput, a: int) -> bool
    decreases chunks.len() - from,
{
    if from >= chunks.len() {
        byte_offset(n.normalized_view(), a) == n.byte_len_spec()
    } else {
        exists|b: int| #[trigger] chunk_span(chunks[from], n, a, b) && chunks_tile_from(chunks, from + 1, n, b)
    }
}

/// A split found from byte `position` on: it extends `prefix` by at least
/// one chunk, and its new chunks tile the rest of the word.
pub open spec fn path_tiles_from(p: Seq<BinaryAnalyzerChunk>, prefix: Seq<BinaryAnalyzerChunk>, n: NormalizedInput, position: int) -> bool {
    &&& p.len() > prefix.len()
    &&& forall|k: int| 0 <= k < prefix.len() ==> same_span(#[trigger] p[k], prefix[k])
    &&& exists|a: int| 0 <= a <= n.normalized_view().len() && byte_offset(n.normalized_view(), a) == position
        && #[trigger] chunks_tile_from(p, prefix.len() as int, n, a)
}

fn copy_analyzer_chunks(chunks: &Vec<BinaryAnalyzerChunk>) -> (r: Vec<BinaryAnalyzerChunk>)
    ensures
        r@.len() == chunks@.len(),
        forall|i: int| 0 <= i < r@.len() ==> (#[trigger] r@[i]).interpretations == chunks@[i].interpretations,
        forall|i: int| 0 <= i < r@.len() ==> same_span(#[trigger] r@[i], chunks@[i]),
{
    let mut out: Vec<BinaryAnalyzerChunk> = Vec::new();
    let mut i: usize = 0;
    while i < chunks.len()
        invariant
            i <= chunks@.len(),
            out@.len() == i,
            forall|k: int| 0 <= k < i ==> (#[trigger] out@[k]).interpretations == chunks@[k].interpretations,
            forall|k: int| 0 <= k < i ==> same_span(#[trigger] out@[k], chunks@[k]),
        decreases chunks@.len() - i,
    {
        out.push(copy_analyzer_chunk(&chunks[i]));
        i = i + 1;
    }
    out
}

/// Whether any reading accepts the word's letter case.
pub fn any_matches_orth_case(interps: &Vec<BinaryAnalyzerInterpretation>, orth: &str) -> (r: bool)
    ensures
        r == exists|i: int| 0 <= i < interps@.len() && (#[trigger] interps@[i]).orth_case_pattern.spec_matches(orth@),
{
    let mut i: usize = 0;
    while i < interps.len()
        invariant
            i <= interps@.len(),
            forall|k: int| 0 <= k < i ==> !(#[trigger] interps@[k]).orth_case_pattern.spec_matches(orth@),
        decreases interps@.len() - i,
    {
        if interps[i].matches_orth_case(orth) {
            return true;
        }
        i = i + 1;
    }
    false
}

/// Splits the lowercased word from byte `position` into dictionary segments
/// whose segment types the rules accept in turn, adding each split that
/// ends in an accepting state to `paths`; the decoded groups go to `groups`.
pub fn collect_segmented_analyzer_paths(
    fsa: BinaryFsa<'_>,
    rules_fsa: &SegmentationRulesFsa<'_>,
    normalized: &NormalizedInput,
    position: usize,
    segmentation_state: SegmentationState,
    current_path: &mut Vec<BinaryAnalyzerChunk>,
    paths: &mut Vec<BinaryAnalyzerPath>,
    groups: &mut Vec<Vec<BinaryAnalyzerInterpretation>>,
) -> (r: Result<()>)
    requires
        fsa.wf(),
        normalized.wf(),
        achunks_in(old(current_path)@, old(groups)@.len() as int),
        apaths_in(old(paths)@, old(groups)@.len() as int),
        groups_wf(old(groups)@),
    ensures
        r is Ok ==> final(current_path)@ == old(current_path)@,
        achunks_in(final(current_path)@, final(groups)@.len() as int),
        apaths_in(final(paths)@, final(groups)@.len() as int),
        groups_wf(final(groups)@),
        old(groups)@.len() <= final(groups)@.len(),
        r matches Err(e) ==> e is InvalidDictionary || e is InvalidArgument,
        old(paths)@.len() <= final(paths)@.len(),
        forall|p: int| 0 <= p < old(paths)@.len() ==> #[trigger] final(paths)@[p] == old(paths)@[p],
        forall|p: int| old(paths)@.len() <= p < final(paths)@.len() ==> path_tiles_from(
            (#[trigger] final(paths)@[p]).chunks@, old(current_path)@, *normalized, position as int),
    decreases normalized.byte_len_spec() - position,
{
    proof {
        normalized.lemma_lengths();
    }
    let total = normalized.byte_len();
    if position >= total {
        return Ok(());
    }
    let bytes = normalized.as_bytes();
    let rest = vstd::slice::slice_subrange(bytes, position, total);
    let matches = fsa.prefix_matches(rest)?;
    let mut m: usize = 0;
    while m < matches.len()
        invariant
            fsa.wf(),
            normalized.wf(),
            total == normalized.byte_len_spec(),
            position < total,
            current_path@ == old(current_path)@,
            achunks_in(current_path@, groups@.len() as int),
            apaths_in(paths@, groups@.len() as int),
            groups_wf(groups@),
            old(groups)@.len() <= groups@.len(),
            old(paths)@.len() <= paths@.len(),
            forall|p: int| 0 <= p < old(paths)@.len() ==> #[trigger] paths@[p] == old(paths)@[p],
            forall|p: int| old(paths)@.len() <= p < paths@.len() ==> path_tiles_from(
                (#[trigger] paths@[p]).chunks@, old(current_path)@, *normalized, position as int),
            normalized.normalized_view().len() == normalized.original_view().len(),
            total == byte_offset(normalized.normalized_view(), normalized.normalized_view().len() as int),
        decreases matches@.len() - m,
    {
        let prefix_match = matches[m];
        m = m + 1;
        if prefix_match.input_end == 0 || prefix_match.input_end > total - position {
            continue;
        }
        let end = position + prefix_match.input_end;
        let (chunk_orth, original_start, original_end) = match normalized.original_span(position, end) {
            Some(span) => span,
            None => {
                continue;
            },
        };
        let at_end = end == total;
        let ghost (sa, sb) = choose|a: int, b: int| 0 <= a <= b <= normalized.original_view().len()
            && byte_offset(normalized.normalized_view(), a) == position
            && byte_offset(normalized.normalized_view(), b) == end
            && chunk_orth@ == normalized.original_view().subrange(a, b)
            && original_start == byte_offset(normalized.original_view(), a)
            && original_end == byte_offset(normalized.original_view(), b);
        let raw_groups = read_raw_interps_groups(prefix_match.value)?;
        let mut g: usize = 0;
        while g < raw_groups.len()
            invariant
                fsa.wf(),
                normalized.wf(),
                total == normalized.byte_len_spec(),
                position < end <= total,
                current_path@ == old(current_path)@,
                achunks_in(current_path@, groups@.len() as int),
                apaths_in(paths@, groups@.len() as int),
                groups_wf(groups@),
                old(groups)@.len() <= groups@.len(),
                old(paths)@.len() <= paths@.len(),
                forall|p: int| 0 <= p < old(paths)@.len() ==> #[trigger] paths@[p] == old(paths)@[p],
                forall|p: int| old(paths)@.len() <= p < paths@.len() ==> path_tiles_from(
                    (#[trigger] paths@[p]).chunks@, old(current_path)@, *normalized, position as int),
                normalized.normalized_view().len() == normalized.original_view().len(),
                total == byte_offset(normalized.normalized_view(), normalized.normalized_view().len() as int),
                0 <= sa <= sb <= normalized.original_view().len(),
                byte_offset(normalized.normalized_view(), sa) == position,
                byte_offset(normalized.normalized_view(), sb) == end,
                chunk_orth@ == normalized.original_view().subrange(sa, sb),
                original_start == byte_offset(normalized.original_view(), sa),
                original_end == byte_offset(normalized.original_view(), sb),
                at_end == (end == total),
            decreases raw_groups@.len() - g,
        {
            let group_index = g;
            let raw_group = raw_groups[g];
            g = g + 1;
            let new_state = match rules_fsa.proceed_to_next(raw_group.segment_type, segmentation_state, at_end) {
                Ok(Some(s)) => s,
                Ok(None) => {
                    continue;
                },
                Err(e) => {
                    return Err(e);
                },
            };
            let decoded = decode_binary_analyzer_interpretations(raw_group)?;
            let case_matches = any_matches_orth_case(&decoded, chunk_orth.as_str());
            let index = groups.len();
            let ghost before_groups = groups@;
            groups.push(decoded);
            proof {
                lemma_apaths_in_mono(paths@, groups@.len() - 1, groups@.len() as int);
                assert forall|a: int, i: int| 0 <= a < groups@.len() && 0 <= i < groups@[a]@.len()
                    implies (#[trigger] groups@[a]@[i]).wf() by {
                    if a < before_groups.len() {
                        assert(groups@[a] == before_groups[a]);
                    }
                }
            }
            current_path.push(BinaryAnalyzerChunk {
                orth: owned(chunk_orth.as_str()),
                original_start,
                original_end,
                shift_orth: new_state.shift_orth_from_previous,
                segment_type: raw_group.segment_type,
                group_state: prefix_match.state_offset,
                group_index,
                case_matches,
                interpretations: index,
            });
            let ghost cp = current_path@;
            let ghost len0 = old(current_path)@.len() as int;
            proof {
                assert(cp == old(current_path)@.push(cp[len0]));
                assert(chunk_span(cp[len0], *normalized, sa, sb));
            }
            if at_end {
                if new_state.accepting {
                    let chunks = copy_analyzer_chunks(current_path);
                    let ghost before = paths@;
                    paths.push(BinaryAnalyzerPath { chunks, weak: new_state.weak });
                    proof {
                        assert forall|i: int| 0 <= i < paths@.len() implies #[trigger] achunks_in(paths@[i].chunks@, groups@.len() as int)
                            && paths@[i].chunks@.len() > 0 by {
                            if i < before.len() {
                                assert(paths@[i] == before[i]);
                            }
                        }
                        let c = chunks@;
                        assert(same_span(c[len0], cp[len0]));
                        assert(chunk_span(c[len0], *normalized, sa, sb));
                        assert(chunks_tile_from(c, len0 + 1, *normalized, sb));
                        assert(chunks_tile_from(c, len0, *normalized, sa));
                        assert forall|k: int| 0 <= k < len0 implies same_span(#[trigger] c[k], old(current_path)@[k]) by {
                            assert(same_span(c[k], cp[k]));
                        }
                        assert(path_tiles_from(c, old(current_path)@, *normalized, position as int));
                        assert forall|p: int| old(paths)@.len() <= p < paths@.len() implies path_tiles_from(
                            (#[trigger] paths@[p]).chunks@, old(current_path)@, *normalized, position as int) by {
                            if p < before.len() {
                                assert(paths@[p] == before[p]);
                            }
                        }
                    }
                }
            } else if !new_state.sink {
                let ghost before = paths@;
                let deeper = collect_segmented_analyzer_paths(fsa, rules_fsa, normalized, end, new_state, current_path, paths, groups);
                proof {
                    assert forall|p: int| old(paths)@.len() <= p < paths@.len() implies path_tiles_from(
                        (#[trigger] paths@[p]).chunks@, old(current_path)@, *normalized, position as int) by {
                        if p < before.len() {
                            assert(paths@[p] == before[p]);
                        } else {
                            let c = paths@[p].chunks@;
                            assert(path_tiles_from(c, cp, *normalized, end as int));
                            let a2 = choose|a: int| 0 <= a <= normalized.normalized_view().len()
                                && byte_offset(normalized.normalized_view(), a) == end
                                && #[trigger] chunks_tile_from(c, cp.len() as int, *normalized, a);
                            if a2 < sb {
                                lemma_byte_offset_increasing(normalized.normalized_view(), a2, sb);
                            }
                            if sb < a2 {
                                lemma_byte_offset_increasing(normalized.normalized_view(), sb, a2);
                            }
                            assert(a2 == sb);
                            assert(same_span(c[len0], cp[len0]));
                            assert(chunk_span(c[len0], *normalized, sa, sb));
                            assert(chunks_tile_from(c, len0, *normalized, sa));
                            assert forall|k: int| 0 <= k < len0 implies same_span(#[trigger] c[k], old(current_path)@[k]) by {
                                assert(same_span(c[k], cp[k]));
                            }
                        }
                    }
                }
                deeper?;
            }
            current_path.pop();
            proof {
                assert(current_path@ =~= old(current_path)@);
            }
        }
    }
    Ok(())
}

/// A single unknown-word reading spanning one edge.
/// The dictionary file's prologue and strings read, and its id tables and
/// segmentation section parse.
pub open spec fn dictionary_sections_ok(bytes: Seq<u8>) -> bool {
    &&& prologue_ok(bytes)
    &&& metadata_strings(bytes) matches Some((id, copyright, id_offset))
    &&& id_tables_at(bytes, id_offset, fsa_end_of(bytes) + 4 + be_u32(bytes, fsa_end_of(bytes))) is Some
    &&& metadata_records(bytes.subrange(fsa_end_of(bytes) + 4 + be_u32(bytes, fsa_end_of(bytes)), bytes.len() as int)) is Some
}

/// `m` reads `word` on edge `start..start + 1` by the record `x`.
pub open spec fn encoded_reading(m: MorphInterpretation, x: EncodedAnalyzerInterpretation, word: Seq<char>, start: int) -> bool {
    &&& m.start_node == start
    &&& m.end_node == start + 1
    &&& m.orth@ == word
    &&& Some(m.lemma@) == analyzer_lemma(word, x.form)
    &&& m.tag_id == x.tag_id
    &&& m.name_id == x.name_id
    &&& m.labels_id == x.labels_id
}

/// Record `j` of group `g` is one the case rule keeps for `word`.
pub open spec fn kept_record(groups: Seq<EncodedAnalyzerInterpsGroup>, word: Seq<char>, case_handling: CaseHandling, g: int, j: int) -> bool {
    &&& 0 <= g < groups.len()
    &&& 0 <= j < groups[g].interpretations@.len()
    &&& compatible(encoded_matches(groups[g].interpretations@, word), case_handling, j)
}

/// `m` reads `word` by a record the case rule keeps.
pub open spec fn kept_group_reading(m: MorphInterpretation, groups: Seq<EncodedAnalyzerInterpsGroup>, word: Seq<char>,
    case_handling: CaseHandling, start: int) -> bool {
    exists|g: int, j: int| #[trigger] kept_record(groups, word, case_handling, g, j)
        && encoded_reading(m, groups[g].interpretations@[j], word, start)
}

/// Some reading reads `word` by the record `x`.
pub open spec fn record_read(v: Seq<MorphInterpretation>, x: EncodedAnalyzerInterpretation, word: Seq<char>, start: int) -> bool {
    exists|i: int| 0 <= i < v.len() && #[trigger] encoded_reading(v[i], x, word, start)
}

/// The readings of a whole word from its groups: each reads it by a record
/// the case rule keeps, and every such record gives one.
pub open spec fn word_group_readings(v: Seq<MorphInterpretation>, groups: Seq<EncodedAnalyzerInterpsGroup>, word: Seq<char>,
    case_handling: CaseHandling, start: int) -> bool {
    &&& forall|i: int| 0 <= i < v.len() ==> #[trigger] kept_group_reading(v[i], groups, word, case_handling, start)
    &&& forall|g: int, j: int| #[trigger] kept_record(groups, word, case_handling, g, j)
        ==> record_read(v, groups[g].interpretations@[j], word, start)
}

/// The run of non-separators from `a` to `b`, as a piece, when not empty.
pub open spec fn pending_run(w: Seq<char>, a: int, b: int) -> Seq<Seq<char>> {
    if 0 <= a < b { seq![w.subrange(a, b)] } else { Seq::empty() }
}

/// The readings `v` fall into consecutive non-empty blocks `bs`, block `k`
/// on the nodes from `ns[k]` to `ns[k + 1]`, which increase from `start` to
/// `next`.
pub open spec fn piece_blocks(v: Seq<MorphInterpretation>, bs: Seq<Seq<MorphInterpretation>>, ns: Seq<int>, start: int, next: int) -> bool {
    &&& bs.flatten() == v
    &&& ns.len() == bs.len() + 1
    &&& ns[0] == start
    &&& ns[bs.len() as int] == next
    &&& forall|k: int| 0 <= k < bs.len() ==> (#[trigger] bs[k]).len() > 0 && ns[k] < ns[k + 1]
        && edges_between(bs[k], 0, ns[k], ns[k + 1])
}

proof fn lemma_push_block(v: Seq<MorphInterpretation>, b: Seq<MorphInterpretation>, bs: Seq<Seq<MorphInterpretation>>,
    ns: Seq<int>, start: int, node: int, next: int)
    requires
        piece_blocks(v, bs, ns, start, node),
        node < next,
        b.len() > 0,
        edges_between(b, 0, node, next),
    ensures
        piece_blocks(v + b, bs.push(b), ns.push(next), start, next),
{
    bs.lemma_flatten_push(b);
    let bs2 = bs.push(b);
    let ns2 = ns.push(next);
    assert forall|k: int| 0 <= k < bs2.len() implies (#[trigger] bs2[k]).len() > 0 && ns2[k] < ns2[k + 1]
        && edges_between(bs2[k], 0, ns2[k], ns2[k + 1]) by {
        if k < bs.len() {
            assert(bs2[k] == bs[k]);
            assert(ns2[k] == ns[k] && ns2[k + 1] == ns[k + 1]);
        } else {
            assert(bs2[k] == b);
            assert(ns2[k] == node && ns2[k + 1] == next);
        }
    }
}

/// `m` is the unknown-word reading of `word` on edge `start..start + 1`.
pub open spec fn unknown_word_reading(m: MorphInterpretation, word: Seq<char>, start: int) -> bool {
    &&& m.start_node == start
    &&& m.end_node == start + 1
    &&& m.orth@ == word
    &&& m.lemma@ == word
    &&& m.tag_id == 0
    &&& m.name_id == 0
    &&& m.labels_id == 0
}

pub fn ignotium(word: &str, start_node: i32) -> (r: MorphInterpretation)
    requires
        start_node < i32::MAX,
    ensures
        r.start_node == start_node && r.end_node == start_node + 1 && r.orth@ == word@ && r.lemma@ == word@
            && r.tag_id == 0 && r.name_id == 0 && r.labels_id == 0,
{
    MorphInterpretation::create_ign(start_node, start_node + 1, word, word)
}

/// `start + offset`, or `OutOfRange` where node numbers run out.
pub fn node_at(start: i32, offset: usize) -> (r: Result<i32>)
    requires
        0 <= start,
    ensures
        r matches Ok(n) ==> n == start + offset,
        r is Ok <==> start + offset <= i32::MAX,
        r matches Err(e) ==> e is OutOfRange,
{
    if offset > (i32::MAX - start) as usize {
        return Err(Error::OutOfRange(owned("node number overflow")));
    }
    Ok(start + offset as i32)
}

/// The readings kept under the case rule: all of them when case is
/// ignored; else those whose case pattern accepts the word, or, when
/// none does and case is only conditionally sensitive, all of them.
pub open spec fn compatible(matches: Seq<bool>, case_handling: CaseHandling, i: int) -> bool {
    if case_handling == CaseHandling::IgnoreCase {
        true
    } else if exists|k: int| 0 <= k < matches.len() && matches[k] {
        matches[i]
    } else {
        case_handling == CaseHandling::ConditionallyCaseSensitive
    }
}

/// Whether each reading's case pattern accepts the word.
pub open spec fn binary_matches(interps: Seq<BinaryAnalyzerInterpretation>, orth: Seq<char>) -> Seq<bool> {
    interps.map_values(|x: BinaryAnalyzerInterpretation| x.orth_case_pattern.spec_matches(orth))
}

pub open spec fn encoded_matches(interps: Seq<EncodedAnalyzerInterpretation>, orth: Seq<char>) -> Seq<bool> {
    interps.map_values(|x: EncodedAnalyzerInterpretation| flags_match(orth, x.orth_case_pattern@))
}

/// The positions, in order, of the readings kept under the case rule.
pub fn compatible_indices(matches: &Vec<bool>, case_handling: CaseHandling) -> (r: Vec<usize>)
    ensures
        forall|k: int| 0 <= k < r@.len() ==> (#[trigger] r@[k]) < matches@.len() && compatible(matches@, case_handling, r@[k] as int),
        forall|i: int| 0 <= i < matches@.len() && compatible(matches@, case_handling, i) ==> r@.contains(i as usize),
        forall|a: int, b: int| 0 <= a < b < r@.len() ==> r@[a] < r@[b],
{
    let mut any = false;
    let mut i: usize = 0;
    while i < matches.len()
        invariant
            i <= matches@.len(),
            any == exists|k: int| 0 <= k < i && matches@[k],
        decreases matches@.len() - i,
    {
        if matches[i] {
            any = true;
        }
        i = i + 1;
    }
    let mut out: Vec<usize> = Vec::new();
    let mut i: usize = 0;
    while i < matches.len()
        invariant
            i <= matches@.len(),
            any == exists|k: int| 0 <= k < matches@.len() && matches@[k],
            forall|k: int| 0 <= k < out@.len() ==> (#[trigger] out@[k]) < i && compatible(matches@, case_handling, out@[k] as int),
            forall|j: int| 0 <= j < i && compatible(matches@, case_handling, j) ==> out@.contains(j as usize),
            forall|a: int, b: int| 0 <= a < b < out@.len() ==> out@[a] < out@[b],
        decreases matches@.len() - i,
    {
        let keep = if case_handling == CaseHandling::IgnoreCase {
            true
        } else if any {
            matches[i]
        } else {
            case_handling == CaseHandling::ConditionallyCaseSensitive
        };
        if keep {
            let ghost before = out@;
            out.push(i);
            proof {
                assert forall|j: int| 0 <= j < i + 1 && compatible(matches@, case_handling, j) implies out@.contains(j as usize) by {
                    if j < i {
                        let k = choose|k: int| 0 <= k < before.len() && before[k] == j as usize;
                        assert(out@[k] == j as usize);
                    } else {
                        assert(out@[before.len() as int] == j as usize);
                    }
                }
            }
        }
        i = i + 1;
    }
    out
}

/// Whether each reading's case pattern accepts the word.
fn binary_match_flags(interps: &Vec<BinaryAnalyzerInterpretation>, orth: &str) -> (r: Vec<bool>)
    ensures
        r@ == binary_matches(interps@, orth@),
{
    let mut out: Vec<bool> = Vec::new();
    let mut i: usize = 0;
    while i < interps.len()
        invariant
            i <= interps@.len(),
            out@ == binary_matches(interps@, orth@).take(i as int),
        decreases interps@.len() - i,
    {
        out.push(interps[i].matches_orth_case(orth));
        i = i + 1;
        assert(out@ =~= binary_matches(interps@, orth@).take(i as int));
    }
    assert(out@ =~= binary_matches(interps@, orth@));
    out
}

fn encoded_match_flags(interps: &Vec<EncodedAnalyzerInterpretation>, orth: &str) -> (r: Vec<bool>)
    ensures
        r@ == encoded_matches(interps@, orth@),
{
    let mut out: Vec<bool> = Vec::new();
    let mut i: usize = 0;
    while i < interps.len()
        invariant
            i <= interps@.len(),
            out@ == encoded_matches(interps@, orth@).take(i as int),
        decreases interps@.len() - i,
    {
        out.push(interps[i].matches_orth_case(orth));
        i = i + 1;
        assert(out@ =~= encoded_matches(interps@, orth@).take(i as int));
    }
    assert(out@ =~= encoded_matches(interps@, orth@));
    out
}

/// The first reading kept under the case rule, if any.
pub fn first_case_compatible_interpretation(orth: &str, interps: &Vec<BinaryAnalyzerInterpretation>, case_handling: CaseHandling) -> (r: Option<usize>)
    ensures
        r matches Some(i) ==> i < interps@.len() && compatible(binary_matches(interps@, orth@), case_handling, i as int)
            && forall|j: int| 0 <= j < i ==> !compatible(binary_matches(interps@, orth@), case_handling, j),
        r is None ==> forall|j: int| 0 <= j < interps@.len() ==> !compatible(binary_matches(interps@, orth@), case_handling, j),
{
    let flags = binary_match_flags(interps, orth);
    let kept = compatible_indices(&flags, case_handling);
    if kept.len() == 0 {
        proof {
            assert forall|j: int| 0 <= j < interps@.len() implies !compatible(binary_matches(interps@, orth@), case_handling, j) by {
                if compatible(flags@, case_handling, j) {
                    assert(kept@.contains(j as usize));
                }
            }
        }
        None
    } else {
        proof {
            assert forall|j: int| 0 <= j < kept@[0] implies !compatible(binary_matches(interps@, orth@), case_handling, j) by {
                if compatible(flags@, case_handling, j) {
                    assert(kept@.contains(j as usize));
                    let k = choose|k: int| 0 <= k < kept@.len() && kept@[k] == j as usize;
                    if k > 0 {
                        assert(kept@[0] < kept@[k]);
                    }
                }
            }
        }
        Some(kept[0])
    }
}

/// Whether the path is one edge: every chunk but the last carries its
/// orth over to the next.
pub fn path_is_single_graph_edge(path: &BinaryAnalyzerPath) -> (r: bool)
    ensures
        r == (path.chunks@.len() > 0 && forall|i: int| 0 <= i < path.chunks@.len() - 1 ==> (#[trigger] path.chunks@[i]).shift_orth),
{
    if path.chunks.len() == 0 {
        return false;
    }
    let total = path.chunks.len();
    let mut i: usize = 0;
    while i + 1 < path.chunks.len()
        invariant
            path.chunks@.len() == total,
            path.chunks@.len() > 0,
            i < path.chunks@.len(),
            forall|k: int| 0 <= k < i ==> (#[trigger] path.chunks@[k]).shift_orth,
        decreases path.chunks@.len() - i,
    {
        if !path.chunks[i].shift_orth {
            return false;
        }
        i = i + 1;
    }
    true
}

/// Whether the path counts as weak: its rules say so, or, with conditional
/// case sensitivity, one of its segments does not match its case.
pub fn path_is_effectively_weak(path: &BinaryAnalyzerPath, case_handling: CaseHandling) -> (r: bool)
    ensures
        r == (path.weak || (case_handling == CaseHandling::ConditionallyCaseSensitive
            && exists|i: int| 0 <= i < path.chunks@.len() && !(#[trigger] path.chunks@[i]).case_matches)),
{
    if path.weak {
        return true;
    }
    if case_handling != CaseHandling::ConditionallyCaseSensitive {
        return false;
    }
    let mut i: usize = 0;
    while i < path.chunks.len()
        invariant
            case_handling == CaseHandling::ConditionallyCaseSensitive,
            !path.weak,
            i <= path.chunks@.len(),
            forall|k: int| 0 <= k < i ==> (#[trigger] path.chunks@[k]).case_matches,
        decreases path.chunks@.len() - i,
    {
        if !path.chunks[i].case_matches {
            assert(!path.chunks@[i as int].case_matches);
            return true;
        }
        i = i + 1;
    }
    false
}

/// Whether every segment of the path matches its case.
fn path_case_matches(path: &BinaryAnalyzerPath) -> (r: bool)
    ensures
        r == forall|i: int| 0 <= i < path.chunks@.len() ==> (#[trigger] path.chunks@[i]).case_matches,
{
    let mut i: usize = 0;
    while i < path.chunks.len()
        invariant
            i <= path.chunks@.len(),
            forall|k: int| 0 <= k < i ==> (#[trigger] path.chunks@[k]).case_matches,
        decreases path.chunks@.len() - i,
    {
        if !path.chunks[i].case_matches {
            return false;
        }
        i = i + 1;
    }
    true
}

/// The readings are edges between the given nodes.
pub open spec fn edges_between(v: Seq<MorphInterpretation>, from: int, lo: int, hi: int) -> bool {
    forall|i: int| from <= i < v.len() ==> lo <= (#[trigger] v[i]).start_node && v[i].end_node <= hi
        && v[i].start_node < v[i].end_node
}

/// The reading is the interpretation's edge `start..end` for the form `orth`.
pub open spec fn analyzer_reading(m: MorphInterpretation, x: BinaryAnalyzerInterpretation, orth: Seq<char>, start: int, end: int) -> bool {
    &&& m.start_node == start
    &&& m.end_node == end
    &&& m.orth@ == orth
    &&& Some(m.lemma@) == analyzer_lemma(orth, x.form)
    &&& m.tag_id == x.tag_id
    &&& m.name_id == x.name_id
    &&& m.labels_id == x.labels_id
}

/// Interpretation `i` of the group is kept for the form under the case rule.
pub open spec fn kept_reading(interps: Seq<BinaryAnalyzerInterpretation>, orth: Seq<char>, case_handling: CaseHandling, i: int) -> bool {
    0 <= i < interps.len() && compatible(binary_matches(interps, orth), case_handling, i)
}

/// The reading is that of an interpretation of the group kept for the form.
pub open spec fn reading_of_kept(m: MorphInterpretation, interps: Seq<BinaryAnalyzerInterpretation>, orth: Seq<char>,
    case_handling: CaseHandling, start: int, end: int) -> bool {
    exists|i: int| kept_reading(interps, orth, case_handling, i) && #[trigger] analyzer_reading(m, interps[i], orth, start, end)
}

/// Adds the readings of one chunk as edges `start_node..end_node`.
#[verifier::rlimit(40)]
pub fn push_plain_chunk_interpretations(
    chunk: &BinaryAnalyzerChunk,
    groups: &Vec<Vec<BinaryAnalyzerInterpretation>>,
    start_node: i32,
    end_node: i32,
    case_handling: CaseHandling,
    result: &mut Vec<MorphInterpretation>,
) -> (r: Result<()>)
    requires
        chunk.interpretations < groups@.len(),
        start_node < end_node,
    ensures
        final(result)@.len() >= old(result)@.len(),
        forall|i: int| 0 <= i < old(result)@.len() ==> #[trigger] final(result)@[i] == old(result)@[i],
        edges_between(final(result)@, old(result)@.len() as int, start_node as int, end_node as int),
        r matches Err(e) ==> e is InvalidDictionary,
        r is Ok <==> forall|i: int| #[trigger] kept_reading(groups@[chunk.interpretations as int]@, chunk.orth@, case_handling, i)
            ==> analyzer_lemma(chunk.orth@, groups@[chunk.interpretations as int]@[i].form) is Some,
        r is Ok ==> forall|j: int| old(result)@.len() <= j < final(result)@.len() ==> #[trigger] reading_of_kept(final(result)@[j],
            groups@[chunk.interpretations as int]@, chunk.orth@, case_handling, start_node as int, end_node as int),
        r is Ok ==> forall|i: int| #[trigger] kept_reading(groups@[chunk.interpretations as int]@, chunk.orth@, case_handling, i)
            ==> exists|j: int| old(result)@.len() <= j < final(result)@.len()
            && analyzer_reading(#[trigger] final(result)@[j], groups@[chunk.interpretations as int]@[i], chunk.orth@,
                start_node as int, end_node as int),
{
    let context = AnalyzerOrthContext::new(chunk.orth.as_str());
    let interps = &groups[chunk.interpretations];
    let flags = binary_match_flags(interps, chunk.orth.as_str());
    let kept = compatible_indices(&flags, case_handling);
    let ghost g = interps@;
    let ghost orth = chunk.orth@;
    let ghost base = old(result)@.len();
    let mut k: usize = 0;
    while k < kept.len()
        invariant
            context.wf(),
            context.orth@ == orth,
            g == interps@,
            g == groups@[chunk.interpretations as int]@,
            orth == chunk.orth@,
            base == old(result)@.len(),
            flags@ == binary_matches(g, orth),
            forall|j: int| 0 <= j < kept@.len() ==> (#[trigger] kept@[j]) < interps@.len()
                && compatible(flags@, case_handling, kept@[j] as int),
            forall|i: int| 0 <= i < flags@.len() && compatible(flags@, case_handling, i) ==> kept@.contains(i as usize),
            k <= kept@.len(),
            result@.len() == base + k,
            forall|i: int| 0 <= i < old(result)@.len() ==> #[trigger] result@[i] == old(result)@[i],
            edges_between(result@, old(result)@.len() as int, start_node as int, end_node as int),
            start_node < end_node,
            forall|j: int| 0 <= j < k ==> analyzer_reading(#[trigger] result@[base + j], g[kept@[j] as int], orth,
                start_node as int, end_node as int),
        decreases kept@.len() - k,
    {
        let made = interps[kept[k]].to_morph_interpretation_in_context(&context, start_node, end_node);
        proof {
            if made is Err {
                assert(kept_reading(g, orth, case_handling, kept@[k as int] as int));
            }
        }
        let m = made?;
        let ghost before = result@;
        result.push(m);
        proof {
            assert forall|j: int| 0 <= j < k + 1 implies analyzer_reading(#[trigger] result@[base + j], g[kept@[j] as int], orth,
                start_node as int, end_node as int) by {
                if j < k {
                    assert(result@[base + j] == before[base + j]);
                }
            }
        }
        k = k + 1;
    }
    proof {
        assert forall|i: int| #[trigger] kept_reading(g, orth, case_handling, i) implies
            exists|j: int| base <= j < result@.len() && analyzer_reading(#[trigger] result@[j], g[i], orth,
                start_node as int, end_node as int) by {
            assert(kept@.contains(i as usize));
            let w = choose|w: int| 0 <= w < kept@.len() && kept@[w] == i as usize;
            assert(kept@[w] as int == i);
            assert(base <= base + w < result@.len());
            assert(analyzer_reading(result@[base + w], g[kept@[w] as int], orth, start_node as int, end_node as int));
            assert(analyzer_reading(result@[base + w], g[i], orth, start_node as int, end_node as int));
        }
        assert forall|i: int| #[trigger] kept_reading(g, orth, case_handling, i) implies
            analyzer_lemma(orth, g[i].form) is Some by {
            let w = choose|w: int| 0 <= w < kept@.len() && kept@[w] == i as usize;
            assert(analyzer_reading(result@[base + w], g[kept@[w] as int], orth, start_node as int, end_node as int));
        }
        assert forall|j: int| base <= j < result@.len() implies #[trigger] reading_of_kept(result@[j], g, orth, case_handling,
                start_node as int, end_node as int) by {
            let w = j - base;
            let i = kept@[w] as int;
            assert(analyzer_reading(result@[base + w], g[i], orth, start_node as int, end_node as int));
            assert(base + w == j);
            assert(kept_reading(g, orth, case_handling, i));
        }
    }
    Ok(())
}

/// The texts of the chunks, one after another.
pub open spec fn chunk_orths(c: Seq<BinaryAnalyzerChunk>) -> Seq<char>
    decreases c.len(),
{
    if c.len() == 0 {
        Seq::empty()
    } else {
        chunk_orths(c.drop_last()) + c.last().orth@
    }
}

/// Some interpretation of the chunk's group is kept for its text.
pub open spec fn has_kept_reading(c: BinaryAnalyzerChunk, groups: Seq<Vec<BinaryAnalyzerInterpretation>>, case_handling: CaseHandling) -> bool {
    exists|i: int| #[trigger] kept_reading(groups[c.interpretations as int]@, c.orth@, case_handling, i)
}

/// The reading is an edge `start..end` for the text `orth` with the ids of
/// the interpretation and the lemma `lemma` names.
pub open spec fn run_reading(m: MorphInterpretation, x: BinaryAnalyzerInterpretation, orth: Seq<char>, start: int, end: int,
    lemma: Option<Seq<char>>) -> bool {
    &&& m.start_node == start
    &&& m.end_node == end
    &&& m.orth@ == orth
    &&& m.tag_id == x.tag_id
    &&& m.name_id == x.name_id
    &&& m.labels_id == x.labels_id
    &&& lemma == Some(m.lemma@)
}

/// The first interpretation of a group kept for the text.
pub open spec fn first_kept(g: Seq<BinaryAnalyzerInterpretation>, orth: Seq<char>, case_handling: CaseHandling) -> int {
    choose|i: int| 0 <= i < g.len() && compatible(binary_matches(g, orth), case_handling, i)
        && forall|j: int| 0 <= j < i ==> !compatible(binary_matches(g, orth), case_handling, j)
}

/// The lemma part of a carried-over chunk: the lemma of its first kept
/// reading, from the form's cut prefix to the end, with no suffix added.
pub open spec fn prefix_part(c: BinaryAnalyzerChunk, groups: Seq<Vec<BinaryAnalyzerInterpretation>>, case_handling: CaseHandling) -> Seq<char> {
    let g = groups[c.interpretations as int]@;
    let f = g[first_kept(g, c.orth@, case_handling)].form;
    match decoded_range(c.orth@, f.prefix_to_cut as int, c.orth@.len() as int, f, false) {
        Some(s) => s,
        None => Seq::empty(),
    }
}

/// The lemma part of a carried-over chunk decodes.
pub open spec fn prefix_part_ok(c: BinaryAnalyzerChunk, groups: Seq<Vec<BinaryAnalyzerInterpretation>>, case_handling: CaseHandling) -> bool {
    let g = groups[c.interpretations as int]@;
    let f = g[first_kept(g, c.orth@, case_handling)].form;
    decoded_range(c.orth@, f.prefix_to_cut as int, c.orth@.len() as int, f, false) is Some
}

/// Whether the readings of a run from carried-over chunk `p` on come out:
/// the walk stops, with no readings, at the first carried-over chunk with
/// no kept reading; before that each lemma part must decode; past the
/// carried-over chunks the last chunk fits in the run's text and each of its
/// kept readings' lemmas decodes.
pub open spec fn run_ok(chunks: Seq<BinaryAnalyzerChunk>, groups: Seq<Vec<BinaryAnalyzerInterpretation>>,
    case_handling: CaseHandling, p: int) -> bool
    decreases chunks.len() - 1 - p,
{
    if p >= chunks.len() - 1 {
        let g = groups[chunks.last().interpretations as int]@;
        &&& chunks.last().orth@.len() <= chunk_orths(chunks).len()
        &&& forall|i: int| #[trigger] kept_reading(g, chunks.last().orth@, case_handling, i)
            ==> run_lemma(chunks, groups, case_handling, g[i]) is Some
    } else if p < 0 || !has_kept_reading(chunks[p], groups, case_handling) {
        true
    } else {
        prefix_part_ok(chunks[p], groups, case_handling) && run_ok(chunks, groups, case_handling, p + 1)
    }
}

/// The lemma parts of the first `n` chunks, one after another.
pub open spec fn run_prefix_lemma(chunks: Seq<BinaryAnalyzerChunk>, groups: Seq<Vec<BinaryAnalyzerInterpretation>>,
    case_handling: CaseHandling, n: int) -> Seq<char>
    decreases n,
{
    if n <= 0 {
        Seq::empty()
    } else {
        run_prefix_lemma(chunks, groups, case_handling, n - 1) + prefix_part(chunks[n - 1], groups, case_handling)
    }
}

/// The lemma of a run's reading `x` of its last chunk: the parts of the
/// carried-over chunks, then the last chunk's form applied to the run's
/// whole text, its capitals moved past the run's prefix where both of the
/// reading's patterns have capitals; `None` where the form does not fit.
pub open spec fn run_lemma(chunks: Seq<BinaryAnalyzerChunk>, groups: Seq<Vec<BinaryAnalyzerInterpretation>>,
    case_handling: CaseHandling, x: BinaryAnalyzerInterpretation) -> Option<Seq<char>> {
    let orth = chunk_orths(chunks);
    let cur = chunks.last().orth@.len() as int;
    let pc = orth.len() - cur;
    let shift = if !(x.orth_case_pattern is Lower) && !(x.form.case_pattern is Lower) && pc < usize::MAX - 256 { pc } else { 0 };
    let f = x.form;
    let start = pc + f.prefix_to_cut;
    let end = orth.len() - f.suffix_to_cut;
    if cur > orth.len() || f.suffix_to_cut > orth.len() || !(start <= end <= orth.len()) {
        None
    } else {
        Some(run_prefix_lemma(chunks, groups, case_handling, chunks.len() - 1)
            + lemma_range_by(orth, start, end, |i: int| i >= shift && f.case_pattern.spec_upper_at(i - shift)) + f.suffix_to_add@)
    }
}

/// Adds the readings of a run of carried-over chunks as edges
/// `start_node..end_node`: the orth is the run's text, the lemma the
/// prefixes' lemma parts followed by the last chunk's lemma decoded in the
/// context of the whole run.
#[verifier::rlimit(60)]
pub fn push_shifted_chunk_interpretations(
    chunks: &[BinaryAnalyzerChunk],
    groups: &Vec<Vec<BinaryAnalyzerInterpretation>>,
    start_node: i32,
    end_node: i32,
    case_handling: CaseHandling,
    result: &mut Vec<MorphInterpretation>,
) -> (r: Result<()>)
    requires
        achunks_in(chunks@, groups@.len() as int),
        groups_wf(groups@),
        start_node < end_node,
    ensures
        final(result)@.len() >= old(result)@.len(),
        forall|i: int| 0 <= i < old(result)@.len() ==> #[trigger] final(result)@[i] == old(result)@[i],
        edges_between(final(result)@, old(result)@.len() as int, start_node as int, end_node as int),
        r matches Err(e) ==> e is InvalidDictionary,
        r is Ok <==> chunks@.len() == 0 || run_ok(chunks@, groups@, case_handling, 0),
        r is Ok ==> forall|j: int| old(result)@.len() <= j < final(result)@.len() ==> (#[trigger] final(result)@[j]).orth@
            == chunk_orths(chunks@),
        r is Ok && chunks@.len() > 0
            && (forall|p: int| 0 <= p < chunks@.len() - 1 ==> has_kept_reading(#[trigger] chunks@[p], groups@, case_handling))
            ==> forall|i: int| #[trigger] kept_reading(groups@[chunks@.last().interpretations as int]@, chunks@.last().orth@, case_handling, i)
                ==> exists|j: int| old(result)@.len() <= j < final(result)@.len() && run_reading(#[trigger] final(result)@[j],
                    groups@[chunks@.last().interpretations as int]@[i], chunk_orths(chunks@), start_node as int, end_node as int,
                    run_lemma(chunks@, groups@, case_handling, groups@[chunks@.last().interpretations as int]@[i])),
{
    if chunks.len() == 0 {
        return Ok(());
    }
    let last = chunks.len() - 1;
    let mut orth = String::new();
    let mut i: usize = 0;
    proof {
        assert(chunks@.take(0) =~= Seq::<BinaryAnalyzerChunk>::empty());
    }
    while i < chunks.len()
        invariant
            i <= chunks@.len(),
            orth@ == chunk_orths(chunks@.take(i as int)),
        decreases chunks@.len() - i,
    {
        proof {
            let t = chunks@.take(i + 1);
            assert(t.drop_last() =~= chunks@.take(i as int));
        }
        push_str(&mut orth, chunks[i].orth.as_str());
        i = i + 1;
    }
    proof {
        assert(chunks@.take(chunks@.len() as int) =~= chunks@);
    }
    let mut lemma_prefix = String::new();
    let mut p: usize = 0;
    while p < last
        invariant
            p <= last < chunks@.len(),
            last == chunks@.len() - 1,
            achunks_in(chunks@, groups@.len() as int),
            groups_wf(groups@),
            orth@ == chunk_orths(chunks@),
            lemma_prefix@ == run_prefix_lemma(chunks@, groups@, case_handling, p as int),
            run_ok(chunks@, groups@, case_handling, 0) == run_ok(chunks@, groups@, case_handling, p as int),
        decreases last - p,
    {
        let prefix = &chunks[p];
        let interps = &groups[prefix.interpretations];
        match first_case_compatible_interpretation(prefix.orth.as_str(), interps, case_handling) {
            Some(idx) => {
                let decoded = decode_analyzer_prefix_lemma_for_form(prefix.orth.as_str(), &interps[idx].form);
                proof {
                    let g = interps@;
                    let c = first_kept(g, prefix.orth@, case_handling);
                    assert(0 <= c < g.len() && compatible(binary_matches(g, prefix.orth@), case_handling, c)
                        && forall|j: int| 0 <= j < c ==> !compatible(binary_matches(g, prefix.orth@), case_handling, j));
                    if c < idx {
                        assert(!compatible(binary_matches(g, prefix.orth@), case_handling, c));
                    }
                    if idx < c {
                        assert(!compatible(binary_matches(g, prefix.orth@), case_handling, idx as int));
                    }
                    assert(c == idx);
                    assert(*prefix == chunks@[p as int]);
                    assert(kept_reading(g, prefix.orth@, case_handling, idx as int));
                    assert(has_kept_reading(chunks@[p as int], groups@, case_handling));
                    assert(prefix_part_ok(chunks@[p as int], groups@, case_handling) == (decoded is Ok));
                }
                let part = decoded?;
                proof {
                    assert(prefix_part(chunks@[p as int], groups@, case_handling) == part@);
                }
                push_str(&mut lemma_prefix, part.as_str());
            },
            None => {
                proof {
                    assert(!has_kept_reading(chunks@[p as int], groups@, case_handling));
                }
                return Ok(());
            },
        }
        p = p + 1;
    }
    let current = &chunks[last];
    let current_codepoints = chars_of(current.orth.as_str()).len();
    let orth_context = AnalyzerOrthContext::new(orth.as_str());
    proof {
        assert(*current == chunks@.last());
    }
    if current_codepoints > orth_context.original_codepoints_len {
        return Err(Error::invalid_dictionary("segment is longer than its run"));
    }
    let prefix_codepoints = orth_context.original_codepoints_len - current_codepoints;
    let interps = &groups[current.interpretations];
    let flags = binary_match_flags(interps, current.orth.as_str());
    let kept = compatible_indices(&flags, case_handling);
    let ghost base = old(result)@.len();
    let mut k: usize = 0;
    while k < kept.len()
        invariant
            forall|j: int| 0 <= j < kept@.len() ==> (#[trigger] kept@[j]) < interps@.len(),
            groups_wf(groups@),
            current.interpretations < groups@.len(),
            *interps == groups@[current.interpretations as int],
            result@.len() >= old(result)@.len(),
            forall|i: int| 0 <= i < old(result)@.len() ==> #[trigger] result@[i] == old(result)@[i],
            edges_between(result@, old(result)@.len() as int, start_node as int, end_node as int),
            start_node < end_node,
            k <= kept@.len(),
            base == old(result)@.len(),
            result@.len() == base + k,
            orth@ == chunk_orths(chunks@),
            last == chunks@.len() - 1,
            lemma_prefix@ == run_prefix_lemma(chunks@, groups@, case_handling, last as int),
            current_codepoints == chunks@.last().orth@.len(),
            current_codepoints <= orth@.len(),
            prefix_codepoints == orth@.len() - current_codepoints,
            orth_context.lowercase_codepoints_len == orth@.len(),
            orth_context.orth@ == orth@,
            forall|j: int| 0 <= j < k ==> run_reading(#[trigger] result@[base + j], interps@[kept@[j] as int], orth@,
                start_node as int, end_node as int, run_lemma(chunks@, groups@, case_handling, interps@[kept@[j] as int])),
            run_ok(chunks@, groups@, case_handling, 0) == run_ok(chunks@, groups@, case_handling, last as int),
            *current == chunks@.last(),
            flags@ == binary_matches(interps@, current.orth@),
            forall|j: int| 0 <= j < kept@.len() ==> compatible(flags@, case_handling, #[trigger] kept@[j] as int),
        decreases kept@.len() - k,
    {
        let ghost before = result@;
        let interp = &interps[kept[k]];
        k = k + 1;
        assert(interp.wf()) by {
            assert(groups@[current.interpretations as int]@[kept@[k - 1] as int].wf());
        }
        let shifted = if !interp.orth_case_pattern.is_empty() && !interp.form.case_pattern.is_empty()
            && prefix_codepoints < usize::MAX - 256 {
            super::interps::BinaryAnalyzerForm {
                prefix_to_cut: interp.form.prefix_to_cut,
                suffix_to_cut: interp.form.suffix_to_cut,
                suffix_to_add: owned(interp.form.suffix_to_add.as_str()),
                case_pattern: interp.form.case_pattern.shifted_by_lower_prefix(prefix_codepoints),
            }
        } else {
            super::interps::BinaryAnalyzerForm {
                prefix_to_cut: interp.form.prefix_to_cut,
                suffix_to_cut: interp.form.suffix_to_cut,
                suffix_to_add: owned(interp.form.suffix_to_add.as_str()),
                case_pattern: interp.form.case_pattern.shifted_by_lower_prefix(0),
            }
        };
        let ghost shift: int = if !(interp.orth_case_pattern is Lower) && !(interp.form.case_pattern is Lower)
            && prefix_codepoints < usize::MAX - 256 { prefix_codepoints as int } else { 0 };
        let decoded_tail = decode_analyzer_lemma_with_prefix_context_len(
            orth.as_str(),
            current_codepoints,
            orth_context.lowercase_codepoints_len,
            &shifted,
        );
        proof {
            if decoded_tail is Err {
                let x = *interp;
                assert(x == interps@[kept@[k - 1] as int]);
                assert(compatible(flags@, case_handling, kept@[k - 1] as int));
                assert(kept_reading(interps@, current.orth@, case_handling, kept@[k - 1] as int));
                assert(run_lemma(chunks@, groups@, case_handling, x) is None);
                assert(!run_ok(chunks@, groups@, case_handling, last as int));
            }
        }
        let tail = decoded_tail?;
        proof {
            let x = *interp;
            let n = orth@.len() as int;
            let st = n - current_codepoints + x.form.prefix_to_cut;
            let en = n - x.form.suffix_to_cut;
            let up = |i: int| i >= shift && x.form.case_pattern.spec_upper_at(i - shift);
            assert forall|i: int| st <= i < en implies shifted.case_pattern.spec_upper_at(i) == up(i) by {
                assert(shifted.case_pattern.spec_upper_at(i) == (i >= shift && x.form.case_pattern.spec_upper_at(i - shift)));
            }
            lemma_range_by_pattern(orth@, st, en, shifted, up);
            assert(x == interps@[kept@[k - 1] as int]);
            assert(run_lemma(chunks@, groups@, case_handling, x) == Some(lemma_prefix@ + tail@));
        }
        let mut lemma = owned(lemma_prefix.as_str());
        push_str(&mut lemma, tail.as_str());
        result.push(MorphInterpretation {
            start_node,
            end_node,
            orth: owned(orth.as_str()),
            lemma,
            tag_id: interp.tag_id,
            name_id: interp.name_id,
            labels_id: interp.labels_id,
        });
        proof {
            assert forall|j: int| 0 <= j < k implies run_reading(#[trigger] result@[base + j], interps@[kept@[j] as int], orth@,
                start_node as int, end_node as int, run_lemma(chunks@, groups@, case_handling, interps@[kept@[j] as int])) by {
                if j < k - 1 {
                    assert(result@[base + j] == before[base + j]);
                }
            }
        }
    }
    let interps_len = interps.len();
    proof {
        assert(*current == chunks@.last());
        assert forall|i: int| #[trigger] kept_reading(interps@, current.orth@, case_handling, i) implies
            exists|j: int| base <= j < result@.len() && run_reading(#[trigger] result@[j], interps@[i], orth@,
                start_node as int, end_node as int, run_lemma(chunks@, groups@, case_handling, interps@[i])) by {
            assert(flags@ == binary_matches(interps@, current.orth@));
            assert(0 <= i < flags@.len() && compatible(flags@, case_handling, i));
            assert(i < interps_len);
            assert(kept@.contains(i as usize));
            let w = choose|w: int| 0 <= w < kept@.len() && kept@[w] == i as usize;
            assert(run_reading(result@[base + w], interps@[kept@[w] as int], orth@, start_node as int, end_node as int,
                run_lemma(chunks@, groups@, case_handling, interps@[kept@[w] as int])));
            assert(kept@[w] as int == i);
            let j = base + w;
            assert(base <= j < result@.len() && run_reading(result@[j], interps@[i], orth@, start_node as int, end_node as int,
                run_lemma(chunks@, groups@, case_handling, interps@[i])));
        }
        assert forall|j: int| base <= j < result@.len() implies (#[trigger] result@[j]).orth@ == chunk_orths(chunks@) by {
            assert(run_reading(result@[base + (j - base)], interps@[kept@[j - base] as int], orth@, start_node as int, end_node as int,
                run_lemma(chunks@, groups@, case_handling, interps@[kept@[j - base] as int])));
        }
    }
    Ok(())
}

/// The readings of a single path: each run of carried-over chunks with its
/// main chunk is one edge, the edges numbered from `start_node` in turn;
/// the readings and the number of nodes, `None` when there are none.
pub fn single_path_to_morph_interpretations(
    path: &BinaryAnalyzerPath,
    groups: &Vec<Vec<BinaryAnalyzerInterpretation>>,
    start_node: i32,
    case_handling: CaseHandling,
) -> (r: Result<Option<(Vec<MorphInterpretation>, i32)>>)
    requires
        achunks_in(path.chunks@, groups@.len() as int),
        groups_wf(groups@),
        0 <= start_node,
    ensures
        r matches Ok(Some((v, n))) ==> v@.len() > 0 && n > 0 && edges_between(v@, 0, start_node as int, start_node + n),
        r matches Err(e) ==> e is InvalidDictionary || e is OutOfRange,
{
    let mut result: Vec<MorphInterpretation> = Vec::new();
    let mut index: usize = 0;
    let mut node: usize = 0;
    let total_chunks = path.chunks.len();
    while index < path.chunks.len()
        invariant
            achunks_in(path.chunks@, groups@.len() as int),
            groups_wf(groups@),
            index <= path.chunks@.len(),
            path.chunks@.len() == total_chunks,
            node <= index,
            0 <= start_node,
            result@.len() > 0 ==> node > 0,
            edges_between(result@, 0, start_node as int, start_node + node),
        decreases path.chunks@.len() - index,
    {
        let mut shifted_end = index;
        while shifted_end + 1 < path.chunks.len() && path.chunks[shifted_end].shift_orth
            invariant
                index <= shifted_end < path.chunks@.len(),
                path.chunks@.len() == total_chunks,
            decreases path.chunks@.len() - shifted_end,
        {
            shifted_end = shifted_end + 1;
        }
        let src = node_at(start_node, node)?;
        let target = node_at(start_node, node + 1)?;
        if shifted_end > index {
            let run = vstd::slice::slice_subrange(path.chunks.as_slice(), index, shifted_end + 1);
            assert(achunks_in(run@, groups@.len() as int)) by {
                assert forall|i: int| 0 <= i < run@.len() implies (#[trigger] run@[i]).interpretations < groups@.len() by {
                    assert(run@[i] == path.chunks@[index + i]);
                }
            }
            push_shifted_chunk_interpretations(run, groups, src, target, case_handling, &mut result)?;
        } else {
            push_plain_chunk_interpretations(&path.chunks[index], groups, src, target, case_handling, &mut result)?;
        }
        node = node + 1;
        index = shifted_end + 1;
    }
    if result.len() == 0 {
        Ok(None)
    } else {
        let n = node_at(0, node)?;
        Ok(Some((result, n)))
    }
}

/// The path counts as weak: it is marked so, or, with conditional case
/// sensitivity, one of its segments does not match in case.
pub open spec fn effectively_weak(path: BinaryAnalyzerPath, case_handling: CaseHandling) -> bool {
    path.weak || (case_handling == CaseHandling::ConditionallyCaseSensitive
        && exists|i: int| 0 <= i < path.chunks@.len() && !(#[trigger] path.chunks@[i]).case_matches)
}

/// Path `p` is kept among `paths`: it is strong, or no path is.
pub open spec fn path_survives(paths: Seq<BinaryAnalyzerPath>, case_handling: CaseHandling, p: int) -> bool {
    &&& 0 <= p < paths.len()
    &&& !((exists|q: int| 0 <= q < paths.len() && !effectively_weak(#[trigger] paths[q], case_handling))
        && effectively_weak(paths[p], case_handling))
}

/// Weak paths give way to strong ones: where some path is strong, exactly
/// the strong paths are kept; where none is, every path is.
pub proof fn law_strong_paths_win(paths: Seq<BinaryAnalyzerPath>, case_handling: CaseHandling, p: int)
    requires
        0 <= p < paths.len(),
    ensures
        (exists|q: int| 0 <= q < paths.len() && !effectively_weak(#[trigger] paths[q], case_handling))
            ==> (path_survives(paths, case_handling, p) <==> !effectively_weak(paths[p], case_handling)),
        (forall|q: int| 0 <= q < paths.len() ==> effectively_weak(#[trigger] paths[q], case_handling))
            ==> path_survives(paths, case_handling, p),
{
}

/// Every reading the path gives is in `v` as an edge `start..end`: for a
/// one-segment path each reading the case rule keeps for the segment; for a
/// run of carried-over segments whose earlier segments each keep a reading,
/// each reading kept for the last segment, reported with the run's text.
pub open spec fn path_read(v: Seq<MorphInterpretation>, path: BinaryAnalyzerPath, groups: Seq<Vec<BinaryAnalyzerInterpretation>>,
    case_handling: CaseHandling, start: int, end: int) -> bool {
    let c = path.chunks@;
    if c.len() == 1 {
        forall|i: int| #[trigger] kept_reading(groups[c[0].interpretations as int]@, c[0].orth@, case_handling, i)
            ==> exists|j: int| 0 <= j < v.len() && #[trigger] analyzer_reading(v[j], groups[c[0].interpretations as int]@[i],
                c[0].orth@, start, end)
    } else {
        (forall|q: int| 0 <= q < c.len() - 1 ==> has_kept_reading(#[trigger] c[q], groups, case_handling))
            ==> forall|i: int| #[trigger] kept_reading(groups[c.last().interpretations as int]@, c.last().orth@, case_handling, i)
            ==> exists|j: int| 0 <= j < v.len() && #[trigger] run_reading(v[j], groups[c.last().interpretations as int]@[i],
                chunk_orths(c), start, end, run_lemma(c, groups, case_handling, groups[c.last().interpretations as int]@[i]))
    }
}

/// The reading is one the path gives as an edge `start..end`: a reading
/// the case rule keeps for a one-segment path, or a reading of the whole
/// run's text for a run of carried-over segments.
pub open spec fn reading_from_path(m: MorphInterpretation, path: BinaryAnalyzerPath, groups: Seq<Vec<BinaryAnalyzerInterpretation>>,
    case_handling: CaseHandling, start: int, end: int) -> bool {
    let c = path.chunks@;
    if c.len() == 1 {
        reading_of_kept(m, groups[c[0].interpretations as int]@, c[0].orth@, case_handling, start, end)
    } else {
        m.start_node == start && m.end_node == end && m.orth@ == chunk_orths(c)
    }
}

/// The reading is one that a path kept among `paths` gives.
pub open spec fn from_surviving_path(m: MorphInterpretation, paths: Seq<BinaryAnalyzerPath>,
    groups: Seq<Vec<BinaryAnalyzerInterpretation>>, case_handling: CaseHandling, start: int, end: int) -> bool {
    exists|p: int| #[trigger] path_survives(paths, case_handling, p)
        && reading_from_path(m, paths[p], groups, case_handling, start, end)
}

proof fn lemma_path_read_grow(v: Seq<MorphInterpretation>, w: Seq<MorphInterpretation>, path: BinaryAnalyzerPath,
    groups: Seq<Vec<BinaryAnalyzerInterpretation>>, case_handling: CaseHandling, start: int, end: int)
    requires
        path_read(v, path, groups, case_handling, start, end),
        v.len() <= w.len(),
        forall|i: int| 0 <= i < v.len() ==> #[trigger] w[i] == v[i],
    ensures
        path_read(w, path, groups, case_handling, start, end),
{
    let c = path.chunks@;
    if c.len() == 1 {
        let g = groups[c[0].interpretations as int]@;
        assert forall|i: int| #[trigger] kept_reading(g, c[0].orth@, case_handling, i)
            implies exists|j: int| 0 <= j < w.len() && #[trigger] analyzer_reading(w[j], g[i], c[0].orth@, start, end) by {
            let j = choose|j: int| 0 <= j < v.len() && #[trigger] analyzer_reading(v[j], g[i], c[0].orth@, start, end);
            assert(w[j] == v[j]);
        }
    } else {
        let g = groups[c.last().interpretations as int]@;
        if forall|q: int| 0 <= q < c.len() - 1 ==> has_kept_reading(#[trigger] c[q], groups, case_handling) {
            assert forall|i: int| #[trigger] kept_reading(g, c.last().orth@, case_handling, i)
                implies exists|j: int| 0 <= j < w.len() && #[trigger] run_reading(w[j], g[i], chunk_orths(c), start, end,
                    run_lemma(c, groups, case_handling, g[i])) by {
                let j = choose|j: int| 0 <= j < v.len() && #[trigger] run_reading(v[j], g[i], chunk_orths(c), start, end,
                    run_lemma(c, groups, case_handling, g[i]));
                assert(w[j] == v[j]);
            }
        }
    }
}

/// The readings of paths that are each one edge: strong paths only, when
/// there is one, all as edges `start_node..start_node + 1`.
pub fn single_edge_paths_to_morph_interpretations(
    paths: &Vec<BinaryAnalyzerPath>,
    groups: &Vec<Vec<BinaryAnalyzerInterpretation>>,
    start_node: i32,
    case_handling: CaseHandling,
) -> (r: Result<Option<(Vec<MorphInterpretation>, i32)>>)
    requires
        apaths_in(paths@, groups@.len() as int),
        groups_wf(groups@),
        0 <= start_node < i32::MAX,
    ensures
        r matches Ok(Some((v, n))) ==> v@.len() > 0 && n == 1 && edges_between(v@, 0, start_node as int, start_node + 1),
        r matches Err(e) ==> e is InvalidDictionary,
        r matches Ok(Some((v, n))) ==> forall|p: int| #[trigger] path_survives(paths@, case_handling, p)
            ==> path_read(v@, paths@[p], groups@, case_handling, start_node as int, start_node + 1),
        r matches Ok(None) ==> forall|p: int| #[trigger] path_survives(paths@, case_handling, p)
            ==> path_read(Seq::empty(), paths@[p], groups@, case_handling, start_node as int, start_node + 1),
        r matches Ok(Some((v, n))) ==> forall|j: int| 0 <= j < v@.len()
            ==> #[trigger] from_surviving_path(v@[j], paths@, groups@, case_handling, start_node as int, start_node + 1),
{
    let mut has_strong = false;
    let mut p: usize = 0;
    while p < paths.len()
        invariant
            p <= paths@.len(),
            has_strong == exists|q: int| 0 <= q < p && !effectively_weak(#[trigger] paths@[q], case_handling),
        decreases paths@.len() - p,
    {
        let ghost before = has_strong;
        let weak = path_is_effectively_weak(&paths[p], case_handling);
        if !weak {
            has_strong = true;
        }
        proof {
            assert(weak == effectively_weak(paths@[p as int], case_handling));
            if has_strong && !before {
                assert(!effectively_weak(paths@[p as int], case_handling));
            }
            if before {
                let q = choose|q: int| 0 <= q < p && !effectively_weak(#[trigger] paths@[q], case_handling);
                assert(0 <= q < p + 1 && !effectively_weak(paths@[q], case_handling));
            }
        }
        p = p + 1;
    }
    let mut result: Vec<MorphInterpretation> = Vec::new();
    let target = start_node + 1;
    let mut p: usize = 0;
    while p < paths.len()
        invariant
            p <= paths@.len(),
            apaths_in(paths@, groups@.len() as int),
            groups_wf(groups@),
            target == start_node + 1,
            edges_between(result@, 0, start_node as int, target as int),
            has_strong == exists|q: int| 0 <= q < paths@.len() && !effectively_weak(#[trigger] paths@[q], case_handling),
            forall|q: int| #[trigger] path_survives(paths@, case_handling, q) && q < p
                ==> path_read(result@, paths@[q], groups@, case_handling, start_node as int, target as int),
            forall|j: int| 0 <= j < result@.len()
                ==> #[trigger] from_surviving_path(result@[j], paths@, groups@, case_handling, start_node as int, target as int),
        decreases paths@.len() - p,
    {
        let path = &paths[p];
        assert(achunks_in(paths@[p as int].chunks@, groups@.len() as int) && paths@[p as int].chunks@.len() > 0);
        let ghost cur = p as int;
        p = p + 1;
        if has_strong && path_is_effectively_weak(path, case_handling) {
            proof {
                assert(!path_survives(paths@, case_handling, cur));
            }
            continue;
        }
        let ghost before = result@;
        if path.chunks.len() > 1 {
            push_shifted_chunk_interpretations(path.chunks.as_slice(), groups, start_node, target, case_handling, &mut result)?;
        } else {
            push_plain_chunk_interpretations(&path.chunks[0], groups, start_node, target, case_handling, &mut result)?;
        }
        proof {
            assert(*path == paths@[cur]);
            assert(path_read(result@, paths@[cur], groups@, case_handling, start_node as int, target as int));
            assert forall|q: int| #[trigger] path_survives(paths@, case_handling, q) && q < p
                implies path_read(result@, paths@[q], groups@, case_handling, start_node as int, target as int) by {
                if q < cur {
                    lemma_path_read_grow(before, result@, paths@[q], groups@, case_handling, start_node as int, target as int);
                }
            }
            assert(path_survives(paths@, case_handling, cur));
            assert forall|j: int| 0 <= j < result@.len()
                implies #[trigger] from_surviving_path(result@[j], paths@, groups@, case_handling, start_node as int, target as int) by {
                if j < before.len() {
                    assert(result@[j] == before[j]);
                } else {
                    assert(reading_from_path(result@[j], paths@[cur], groups@, case_handling, start_node as int, target as int));
                }
            }
        }
    }
    if result.len() == 0 {
        proof {
            assert(result@ =~= Seq::<MorphInterpretation>::empty());
        }
        Ok(None)
    } else {
        Ok(Some((result, 1)))
    }
}

/// The readings of a word's paths and the number of nodes, `None` when
/// there are none. With strict case sensitivity paths with a segment whose
/// case does not match are dropped; one path, or paths that are each one
/// edge, are numbered directly; otherwise the paths go through the
/// inflexion graph, where weak paths give way to strong ones.
pub fn paths_to_morph_interpretations(
    paths: Vec<BinaryAnalyzerPath>,
    groups: &Vec<Vec<BinaryAnalyzerInterpretation>>,
    start_node: i32,
    case_handling: CaseHandling,
) -> (r: Result<Option<(Vec<MorphInterpretation>, i32)>>)
    requires
        apaths_in(paths@, groups@.len() as int),
        groups_wf(groups@),
        0 <= start_node < i32::MAX,
    ensures
        paths@.len() == 0 ==> r matches Ok(None),
        r matches Ok(Some((v, n))) ==> v@.len() > 0 && n > 0 && edges_between(v@, 0, start_node as int, start_node + n),
        r matches Err(e) ==> e is InvalidDictionary || e is OutOfRange,
{
    if paths.len() == 0 {
        return Ok(None);
    }
    nonempty_paths_to_morph_interpretations(paths, groups, start_node, case_handling)
}

fn nonempty_paths_to_morph_interpretations(
    paths: Vec<BinaryAnalyzerPath>,
    groups: &Vec<Vec<BinaryAnalyzerInterpretation>>,
    start_node: i32,
    case_handling: CaseHandling,
) -> (r: Result<Option<(Vec<MorphInterpretation>, i32)>>)
    requires
        apaths_in(paths@, groups@.len() as int),
        groups_wf(groups@),
        0 <= start_node < i32::MAX,
    ensures
        r matches Ok(Some((v, n))) ==> v@.len() > 0 && n > 0 && edges_between(v@, 0, start_node as int, start_node + n),
        r matches Err(e) ==> e is InvalidDictionary || e is OutOfRange,
{
    let mut paths = paths;
    if case_handling == CaseHandling::StrictlyCaseSensitive {
        let mut kept: Vec<BinaryAnalyzerPath> = Vec::new();
        let mut rest = paths;
        let mut reversed: Vec<BinaryAnalyzerPath> = Vec::new();
        while rest.len() > 0
            invariant
                apaths_in(rest@, groups@.len() as int),
                apaths_in(reversed@, groups@.len() as int),
            decreases rest@.len(),
        {
            let ghost before = rest@;
            let path = rest.pop().unwrap();
            assert(path == before[before.len() - 1]);
            assert(achunks_in(before[before.len() - 1].chunks@, groups@.len() as int) && before[before.len() - 1].chunks@.len() > 0);
            if path_case_matches(&path) {
                let ghost rb = reversed@;
                reversed.push(path);
                proof {
                    assert forall|i: int| 0 <= i < reversed@.len() implies #[trigger] achunks_in(reversed@[i].chunks@, groups@.len() as int)
                        && reversed@[i].chunks@.len() > 0 by {
                        if i < rb.len() {
                            assert(reversed@[i] == rb[i]);
                        }
                    }
                }
            }
            proof {
                assert forall|i: int| 0 <= i < rest@.len() implies #[trigger] achunks_in(rest@[i].chunks@, groups@.len() as int)
                    && rest@[i].chunks@.len() > 0 by {
                    assert(rest@[i] == before[i]);
                }
            }
        }
        while reversed.len() > 0
            invariant
                apaths_in(kept@, groups@.len() as int),
                apaths_in(reversed@, groups@.len() as int),
            decreases reversed@.len(),
        {
            let ghost before = reversed@;
            let path = reversed.pop().unwrap();
            assert(path == before[before.len() - 1]);
            assert(achunks_in(before[before.len() - 1].chunks@, groups@.len() as int) && before[before.len() - 1].chunks@.len() > 0);
            let ghost kb = kept@;
            kept.push(path);
            proof {
                assert forall|i: int| 0 <= i < kept@.len() implies #[trigger] achunks_in(kept@[i].chunks@, groups@.len() as int)
                    && kept@[i].chunks@.len() > 0 by {
                    if i < kb.len() {
                        assert(kept@[i] == kb[i]);
                    }
                }
                assert forall|i: int| 0 <= i < reversed@.len() implies #[trigger] achunks_in(reversed@[i].chunks@, groups@.len() as int)
                    && reversed@[i].chunks@.len() > 0 by {
                    assert(reversed@[i] == before[i]);
                }
            }
        }
        if kept.len() == 0 {
            return Ok(None);
        }
        paths = kept;
    }
    if paths.len() == 1 {
        assert(achunks_in(paths@[0].chunks@, groups@.len() as int));
        return single_path_to_morph_interpretations(&paths[0], groups, start_node, case_handling);
    }
    let mut all_single = true;
    let mut p: usize = 0;
    while p < paths.len()
        invariant
            p <= paths@.len(),
        decreases paths@.len() - p,
    {
        if !path_is_single_graph_edge(&paths[p]) {
            all_single = false;
        }
        p = p + 1;
    }
    if all_single {
        return single_edge_paths_to_morph_interpretations(&paths, groups, start_node, case_handling);
    }
    let mut graph = InflexionGraph::new(groups.len());
    let mut p: usize = 0;
    while p < paths.len()
        invariant
            p <= paths@.len(),
            graph.wf(),
            graph.spec_groups_len() == groups@.len(),
            apaths_in(paths@, groups@.len() as int),
        decreases paths@.len() - p,
    {
        let weak = path_is_effectively_weak(&paths[p], case_handling);
        assert(achunks_in(paths@[p as int].chunks@, groups@.len() as int));
        graph.add_path(&paths[p], weak);
        p = p + 1;
    }
    if graph.is_empty() {
        return Ok(None);
    }
    let node_count = graph.finish();
    let mut result: Vec<MorphInterpretation> = Vec::new();
    let mut node: usize = 0;
    while node < graph.node_len()
        invariant
            graph.wf(),
            graph.spec_groups_len() == groups@.len(),
            groups_wf(groups@),
            node_count == graph.spec_node_len(),
            0 <= start_node,
            result@.len() > 0 ==> node_count > 0,
            edges_between(result@, 0, start_node as int, start_node + node_count),
        decreases graph.spec_node_len() - node,
    {
        let src = node_at(start_node, node)?;
        let mut e: usize = 0;
        while e < graph.edges_at(node)
            invariant
                graph.wf(),
                graph.spec_groups_len() == groups@.len(),
                groups_wf(groups@),
                node < graph.spec_node_len(),
                node_count == graph.spec_node_len(),
                src == start_node + node,
                0 <= start_node,
                node_count > 0,
                edges_between(result@, 0, start_node as int, start_node + node_count),
            decreases graph.spec_edges_at(node as int) - e,
        {
            let (group, next_node) = graph.edge(node, e);
            e = e + 1;
            if next_node <= node || next_node > node_count {
                return Err(Error::invalid_dictionary("segmentation graph edge does not move forward"));
            }
            let target = node_at(start_node, next_node)?;
            if group.len() > 1 {
                push_shifted_chunk_interpretations(group, groups, src, target, case_handling, &mut result)?;
            } else {
                push_plain_chunk_interpretations(&group[0], groups, src, target, case_handling, &mut result)?;
            }
        }
        node = node + 1;
    }
    if result.len() == 0 {
        Ok(None)
    } else {
        let n = node_at(0, node_count)?;
        Ok(Some((result, n)))
    }
}

impl BinaryAnalyzerLexicon {
    pub closed spec fn resolver_view(&self) -> IdResolver {
        self.resolver
    }

    /// The automaton's encoding (0 Simple, 1 VLength1, 2 VLength2).
    pub closed spec fn fsa_kind_view(&self) -> int {
        self.data.fsa_kind()
    }

    /// The size of a Simple automaton's transitions.
    pub closed spec fn fsa_tsize_view(&self) -> int {
        self.data.fsa_tsize()
    }

    /// The automaton's bytes.
    pub closed spec fn fsa_data_view(&self) -> Seq<u8> {
        self.data.spec_fsa_data()
    }

    pub closed spec fn id_view(&self) -> Seq<char> {
        self.data.spec_dict_id()
    }

    /// The values the rule variants give an option.
    pub closed spec fn option_values_view(&self, option: Seq<char>) -> Set<Seq<char>> {
        option_values(self.segmentation_metadata, option)
    }

    /// What the automaton gives for the lowercased word: `None` where its
    /// bytes are malformed, else the entry found, if any.
    pub open spec fn recognized(&self, orth: Seq<char>) -> Option<Option<(int, Seq<u8>)>> {
        fsa_recognize_start(self.fsa_kind_view(), self.fsa_tsize_view(), self.fsa_data_view(), encode_utf8(lowered(orth)))
    }

    /// `gs` are the groups the dictionary stores for the whole word.
    pub open spec fn decoded_word_groups(&self, word: Seq<char>, gs: Seq<EncodedAnalyzerInterpsGroup>) -> bool {
        self.recognized(word) matches Some(Some(m)) && analyzer_groups_decoded(m.1, gs)
    }

    /// The readings of a whole word looked up without segmentation: those
    /// of the records the case rule keeps in its groups, else one
    /// unknown-word reading where it is not stored or no record is kept.
    pub open spec fn whole_word_readings(&self, word: Seq<char>, case_handling: CaseHandling, start: int,
        v: Seq<MorphInterpretation>) -> bool {
        ||| v.len() > 0 && exists|gs: Seq<EncodedAnalyzerInterpsGroup>| #[trigger] self.decoded_word_groups(word, gs)
            && word_group_readings(v, gs, word, case_handling, start)
        ||| v.len() == 1 && unknown_word_reading(v[0], word, start) && (self.recognized(word) == Some(None::<(int, Seq<u8>)>)
            || exists|gs: Seq<EncodedAnalyzerInterpsGroup>| #[trigger] self.decoded_word_groups(word, gs)
                && word_group_readings(Seq::empty(), gs, word, case_handling, start))
    }

    /// Whether the dictionary has segmentation rules.
    pub closed spec fn has_rules(&self) -> bool {
        self.segmentation_metadata.fsa_variants@.len() > 0
    }

    /// The key a word is cached under for the case rule and preset: the
    /// options' code (case, then `aggl`, then `praet`, the dictionary's
    /// default for an option not chosen) and the hash of the word with it;
    /// `None` where an option has a value the cache has no code for.
    pub fn word_template_cache_key(&self, word: &str, case_handling: CaseHandling, segmentation: &SegmentationPreset) -> (r: Option<WordTemplateCacheKey>)
        requires
            self.wf(),
        ensures
            r matches Some(k) ==> k.hash == template_hash(encode_utf8(word@), k.config_key),
    {
        let case_code: u16 = match case_handling {
            CaseHandling::ConditionallyCaseSensitive => 0,
            CaseHandling::StrictlyCaseSensitive => 1,
            CaseHandling::IgnoreCase => 2,
        };
        let aggl_code = match segmentation.aggl() {
            Some(a) => aggl_cache_code(Some(a)),
            None => aggl_cache_code(self.segmentation_metadata.default_options.get("aggl")),
        };
        let aggl_code = match aggl_code {
            Some(c) => c,
            None => {
                return None;
            },
        };
        let praet_code = match segmentation.praet() {
            Some(p) => praet_cache_code(Some(p)),
            None => praet_cache_code(self.segmentation_metadata.default_options.get("praet")),
        };
        let praet_code = match praet_code {
            Some(c) => c,
            None => {
                return None;
            },
        };
        let config_key: u16 = case_code + aggl_code * 4 + praet_code * 32;
        Some(WordTemplateCacheKey { hash: word_template_hash(word, config_key), config_key })
    }

    /// `process_one_word` with the word-template cache: a word stored under
    /// its key is answered from the cache, rebased to `start_node`; else it
    /// is analysed and the result offered to the cache.
    pub fn process_one_word_cached(&self, cache: &mut WordTemplateCache, word: &str, start_node: i32, case_handling: CaseHandling,
        segmentation: &SegmentationPreset) -> (r: Result<(Vec<MorphInterpretation>, i32)>)
        requires
            self.wf(),
            0 <= start_node,
            old(cache).wf(),
        ensures
            final(cache).wf(),
            r matches Ok((v, next)) ==> start_node <= next && edges_between(v@, 0, start_node as int, next as int),
            r matches Ok((v, next)) ==> (word@.len() == 0 <==> next == start_node),
            r matches Ok((v, next)) ==> (word@.len() == 0 <==> v@.len() == 0),
            word@.len() == 0 ==> (r matches Ok((v, next)) && v@.len() == 0 && next == start_node),
    {
        if word.is_empty() {
            return Ok((Vec::new(), start_node));
        }
        let key = self.word_template_cache_key(word, case_handling, segmentation);
        match key {
            Some(k) => match cache.get(word, k, start_node) {
                Some((v, n)) => {
                    proof {
                        let t = old(cache).stored(k, word@).unwrap();
                        assert(super::cache::template_wf(t)) by {
                            old(cache).lemma_stored_wf(k, word@);
                        }
                        assert forall|i: int| 0 <= i < v@.len() implies start_node <= (#[trigger] v@[i]).start_node
                            && v@[i].end_node <= n && v@[i].start_node < v@[i].end_node by {
                            assert(super::cache::instantiated(v@[i], t.interps@[i], word@, start_node as int));
                        }
                    }
                    return Ok((v, n));
                },
                None => {},
            },
            None => {},
        }
        let result = self.process_one_word(word, start_node, case_handling, segmentation, false);
        match (&key, &result) {
            (Some(k), Ok((v, n))) => {
                cache.insert_if_admitted(word, *k, v.as_slice(), start_node, *n);
            },
            _ => {},
        }
        result
    }

    /// Whether the character is one of the dictionary's separators.
    pub closed spec fn separator_view(&self, c: char) -> bool {
        self.segmentation_metadata.separators@.contains(c as u32)
    }

    /// Whether `f` is the rule automaton the preset selects.
    pub closed spec fn fsa_view_for(&self, preset: SegmentationPreset, f: Option<Seq<u8>>) -> bool {
        fsa_selected(self.segmentation_metadata, self.default_segmentation_variant_index, preset, f)
    }

    /// Whether the rules settle the preset: there are none, a variant
    /// matches it, or it chooses no option and there is a default variant.
    pub closed spec fn rules_cover(&self, preset: SegmentationPreset) -> bool {
        ||| self.segmentation_metadata.fsa_variants@.len() == 0
        ||| variant_selected(self.segmentation_metadata, preset)
        ||| (preset.spec_aggl() is None && preset.spec_praet() is None && self.default_segmentation_variant_index is Some)
    }

    /// Whether the segmentation section accepts the preset after `option`
    /// was set.
    pub closed spec fn accepts_view(&self, preset: SegmentationPreset, option: Seq<char>) -> bool {
        accepts_option(self.segmentation_metadata, preset, option)
    }

    /// The default value the segmentation section gives an option.
    pub closed spec fn default_option_view(&self, option: Seq<char>) -> Option<Seq<char>> {
        default_option(self.segmentation_metadata, option)
    }

    pub closed spec fn copyright_view(&self) -> Seq<char> {
        self.data.spec_copyright()
    }

    pub closed spec fn wf(&self) -> bool {
        &&& self.data.wf()
        &&& self.resolver.wf()
        &&& self.segmentation_metadata.wf()
        &&& (self.default_segmentation_variant_index matches Some(i) ==> i < self.segmentation_metadata.fsa_variants@.len())
    }

    /// An analyzer over the dictionary file's bytes.
    pub fn from_bytes(bytes: Vec<u8>) -> (r: Result<Self>)
        ensures
            r matches Ok(l) ==> l.wf(),
            r is Ok ==> prologue_ok(bytes@) && metadata_strings(bytes@) is Some,
            r matches Ok(l) ==> l.fsa_data_view() == bytes@.subrange(10, fsa_end_of(bytes@)),
            r is Ok ==> dictionary_sections_ok(bytes@),
            dictionary_sections_ok(bytes@) && implementation_of(bytes@[5]) is Some
                && size_checked_fsa_ok(implementation_of(bytes@[5])->Some_0, bytes@.subrange(10, fsa_end_of(bytes@))) ==> r is Ok,
            r matches Err(e) ==> e is InvalidDictionary,
    {
        let data = BinaryDictionaryData::from_bytes(bytes)?;
        Self::from_data(data)
    }

    /// An analyzer over a dictionary, after checking its automaton, id
    /// tables and segmentation section.
    pub fn from_data(data: BinaryDictionaryData) -> (r: Result<Self>)
        requires
            data.wf(),
        ensures
            r matches Ok(l) ==> l.wf(),
            r matches Ok(l) ==> l.fsa_data_view() == data.spec_fsa_data(),
            r is Ok ==> id_tables_at(data.spec_bytes(), data.spec_id_resolver_offset(), data.spec_rules_data_start()) is Some
                && metadata_records(data.spec_rules_data()) is Some,
            id_tables_at(data.spec_bytes(), data.spec_id_resolver_offset(), data.spec_rules_data_start()) is Some
                && metadata_records(data.spec_rules_data()) is Some
                && size_checked_fsa_ok(data.spec_implementation(), data.spec_fsa_data()) ==> r is Ok,
            r matches Err(e) ==> e is InvalidDictionary,
    {
        let _ = data.fsa()?;
        let resolver = data.id_resolver()?;
        let segmentation_metadata = data.segmentation_metadata()?;
        let default_segmentation_variant_index = default_segmentation_fsa_variant_index(&segmentation_metadata);
        Ok(BinaryAnalyzerLexicon { data, resolver, segmentation_metadata, default_segmentation_variant_index })
    }

    /// The groups stored for the whole lowercased word, `None` where it is
    /// not in the dictionary.
    pub fn lookup_encoded_groups(&self, orth: &str) -> (r: Result<Option<Vec<EncodedAnalyzerInterpsGroup>>>)
        requires
            self.wf(),
        ensures
            ({
                let found = fsa_recognize_start(self.fsa_kind_view(), self.fsa_tsize_view(), self.fsa_data_view(),
                    encode_utf8(lowered(orth@)));
                &&& r matches Ok(None) ==> found == Some(None::<(int, Seq<u8>)>)
                &&& r matches Ok(Some(g)) ==> (found matches Some(Some(m)) && analyzer_groups_decoded(m.1, g@))
                &&& r matches Err(e) ==> e is OutOfRange || (e is InvalidDictionary && (found is None
                    || (found matches Some(Some(m)) && !analyzer_groups_ok(m.1))))
            }),
            4 * orth@.len() < usize::MAX && self.recognized(orth@) == Some(None::<(int, Seq<u8>)>) ==> r matches Ok(None),
            4 * orth@.len() < usize::MAX && (self.recognized(orth@) matches Some(Some(m)) && analyzer_groups_ok(m.1))
                ==> r matches Ok(Some(_)),
    {
        let lookup = match lowercase_with_original_boundaries(orth) {
            Some(n) => n,
            None => {
                return Err(Error::OutOfRange(owned("word is too long")));
            },
        };
        let fsa = self.data.fsa_unchecked();
        match fsa.try_recognize(lookup.as_bytes())? {
            Some(m) => Ok(Some(decode_analyzer_interps_groups(m.value)?)),
            None => Ok(None),
        }
    }

    /// The rule automaton for the preset.
    pub fn segmentation_fsa(&self, segmentation: &SegmentationPreset) -> (r: Result<Option<&[u8]>>)
        requires
            self.wf(),
        ensures
            r matches Err(e) ==> e is InvalidArgument,
            r matches Ok(f) ==> self.fsa_view_for(*segmentation, bytes_option(f)),
            self.rules_cover(*segmentation) ==> r is Ok,
    {
        if segmentation.aggl().is_none() && segmentation.praet().is_none() {
            match self.default_segmentation_variant_index {
                Some(index) => {
                    return Ok(Some(self.segmentation_metadata.fsa_variants[index].fsa.as_slice()));
                },
                None => {},
            }
        }
        segmentation_fsa_for_options(&self.segmentation_metadata, segmentation)
    }

    /// The segmentation paths of a word: `None` where the dictionary has no
    /// rules for the preset (or rules with no start), no paths for an
    /// unknown word.
    pub fn word_paths(&self, orth: &str, segmentation: &SegmentationPreset) -> (r: Result<Option<BinaryAnalyzerWordPaths>>)
        requires
            self.wf(),
        ensures
            r matches Ok(Some(w)) ==> w.wf(),
            r matches Err(e) ==> e is InvalidDictionary || e is InvalidArgument || e is OutOfRange,
            !self.has_rules() ==> r matches Ok(None),
            r matches Ok(None) ==> exists|f: Option<Seq<u8>>| #[trigger] self.fsa_view_for(*segmentation, f)
                && no_initial_transitions(f),
            r matches Ok(Some(_)) ==> exists|f: Option<Seq<u8>>| #[trigger] self.fsa_view_for(*segmentation, f)
                && !no_initial_transitions(f),
            self.rules_cover(*segmentation) && (forall|f: Option<Seq<u8>>| #[trigger] self.fsa_view_for(*segmentation, f)
                ==> !no_initial_transitions(f)) ==> !(r matches Ok(None)),
    {
        let selected = self.segmentation_fsa(segmentation)?;
        proof {
            assert(self.fsa_view_for(*segmentation, bytes_option(selected)));
        }
        let segmentation_fsa = match selected {
            Some(f) => f,
            None => {
                return Ok(None);
            },
        };
        if !has_initial_segmentation_transitions(Some(segmentation_fsa)) {
            return Ok(None);
        }
        if orth.is_empty() {
            return Ok(Some(BinaryAnalyzerWordPaths::empty()));
        }
        let rules_fsa = SegmentationRulesFsa::from_data_unchecked(segmentation_fsa);
        let fsa = self.data.fsa_unchecked();
        let normalized = match lowercase_with_original_boundaries(orth) {
            Some(n) => n,
            None => {
                return Err(Error::OutOfRange(owned("word is too long")));
            },
        };
        let mut paths: Vec<BinaryAnalyzerPath> = Vec::new();
        let mut current_path: Vec<BinaryAnalyzerChunk> = Vec::new();
        let mut groups: Vec<Vec<BinaryAnalyzerInterpretation>> = Vec::new();
        collect_segmented_analyzer_paths(
            fsa,
            &rules_fsa,
            &normalized,
            0,
            rules_fsa.initial_state(),
            &mut current_path,
            &mut paths,
            &mut groups,
        )?;
        Ok(Some(BinaryAnalyzerWordPaths { paths, groups }))
    }

    /// The readings of a word by segmentation and the number of nodes,
    /// `None` where there are none.
    pub fn analyze_word_with_segmentation(&self, orth: &str, start_node: i32, case_handling: CaseHandling, segmentation: &SegmentationPreset) -> (r: Result<Option<(Vec<MorphInterpretation>, i32)>>)
        requires
            self.wf(),
            0 <= start_node < i32::MAX,
        ensures
            r matches Ok(Some((v, n))) ==> v@.len() > 0 && n > 0 && edges_between(v@, 0, start_node as int, start_node + n),
            !self.has_rules() ==> r matches Ok(None),
    {
        match self.word_paths(orth, segmentation)? {
            Some(w) => paths_to_morph_interpretations(w.paths, &w.groups, start_node, case_handling),
            None => Ok(None),
        }
    }

    /// The readings of a whole word as one edge, found without segmentation.
    pub fn lookup_word_interpretations(&self, word: &str, start_node: i32, case_handling: CaseHandling) -> (r: Result<Option<Vec<MorphInterpretation>>>)
        requires
            self.wf(),
            0 <= start_node < i32::MAX,
        ensures
            r matches Ok(Some(v)) ==> v@.len() > 0 && edges_between(v@, 0, start_node as int, start_node + 1),
            4 * word@.len() < usize::MAX && self.recognized(word@) == Some(None::<(int, Seq<u8>)>) ==> r matches Ok(None),
            r matches Ok(Some(v)) ==> exists|gs: Seq<EncodedAnalyzerInterpsGroup>| #[trigger] self.decoded_word_groups(word@, gs)
                && word_group_readings(v@, gs, word@, case_handling, start_node as int),
            r matches Ok(None) ==> self.recognized(word@) == Some(None::<(int, Seq<u8>)>)
                || exists|gs: Seq<EncodedAnalyzerInterpsGroup>| #[trigger] self.decoded_word_groups(word@, gs)
                    && word_group_readings(Seq::empty(), gs, word@, case_handling, start_node as int),
    {
        let ghost absent = 4 * word@.len() < usize::MAX && self.recognized(word@) == Some(None::<(int, Seq<u8>)>);
        let groups = match self.lookup_encoded_groups(word)? {
            Some(g) => g,
            None => {
                return Ok(None);
            },
        };
        assert(!absent);
        assert(self.decoded_word_groups(word@, groups@));
        let mut result: Vec<MorphInterpretation> = Vec::new();
        let mut g: usize = 0;
        while g < groups.len()
            invariant
                g <= groups@.len(),
                !absent,
                absent == (4 * word@.len() < usize::MAX && self.recognized(word@) == Some(None::<(int, Seq<u8>)>)),
                0 <= start_node < i32::MAX,
                edges_between(result@, 0, start_node as int, start_node + 1),
                forall|i: int| 0 <= i < result@.len() ==> #[trigger] kept_group_reading(result@[i], groups@, word@, case_handling, start_node as int),
                forall|g2: int, j: int| #[trigger] kept_record(groups@, word@, case_handling, g2, j) && g2 < g
                    ==> record_read(result@, groups@[g2].interpretations@[j], word@, start_node as int),
            decreases groups@.len() - g,
        {
            let interps = &groups[g].interpretations;
            let flags = encoded_match_flags(interps, word);
            let kept = compatible_indices(&flags, case_handling);
            let mut k: usize = 0;
            while k < kept.len()
                invariant
                    forall|j: int| 0 <= j < kept@.len() ==> (#[trigger] kept@[j]) < interps@.len(),
                    forall|j: int| 0 <= j < kept@.len() ==> compatible(flags@, case_handling, #[trigger] kept@[j] as int),
                    flags@ == encoded_matches(interps@, word@),
                    *interps == groups@[g as int].interpretations,
                    g < groups@.len(),
                    k <= kept@.len(),
                    !absent,
                    absent == (4 * word@.len() < usize::MAX && self.recognized(word@) == Some(None::<(int, Seq<u8>)>)),
                    0 <= start_node < i32::MAX,
                    edges_between(result@, 0, start_node as int, start_node + 1),
                    forall|i: int| 0 <= i < result@.len() ==> #[trigger] kept_group_reading(result@[i], groups@, word@, case_handling, start_node as int),
                    forall|g2: int, j: int| #[trigger] kept_record(groups@, word@, case_handling, g2, j) && g2 < g
                        ==> record_read(result@, groups@[g2].interpretations@[j], word@, start_node as int),
                    forall|k2: int| 0 <= k2 < k ==> record_read(result@, interps@[#[trigger] kept@[k2] as int], word@, start_node as int),
                decreases kept@.len() - k,
            {
                let m = interps[kept[k]].to_morph_interpretation(word, start_node, start_node + 1)?;
                let ghost before = result@;
                proof {
                    let j = kept@[k as int] as int;
                    assert(encoded_reading(m, groups@[g as int].interpretations@[j], word@, start_node as int));
                    assert(kept_record(groups@, word@, case_handling, g as int, j));
                    assert(kept_group_reading(m, groups@, word@, case_handling, start_node as int));
                }
                result.push(m);
                proof {
                    assert(result@ == before.push(m));
                    assert forall|x: EncodedAnalyzerInterpretation| record_read(before, x, word@, start_node as int)
                        implies #[trigger] record_read(result@, x, word@, start_node as int) by {
                        let i = choose|i: int| 0 <= i < before.len() && #[trigger] encoded_reading(before[i], x, word@, start_node as int);
                        assert(result@[i] == before[i]);
                    }
                    assert(result@[before.len() as int] == m);
                    assert(record_read(result@, interps@[kept@[k as int] as int], word@, start_node as int));
                    assert forall|i: int| 0 <= i < result@.len() implies #[trigger] kept_group_reading(result@[i], groups@, word@, case_handling, start_node as int) by {
                        if i < before.len() {
                            assert(result@[i] == before[i]);
                        }
                    }
                }
                k = k + 1;
            }
            proof {
                assert forall|g2: int, j: int| #[trigger] kept_record(groups@, word@, case_handling, g2, j) && g2 < g + 1
                    implies record_read(result@, groups@[g2].interpretations@[j], word@, start_node as int) by {
                    if g2 == g {
                        assert(compatible(flags@, case_handling, j));
                        assert(kept@.contains(j as usize));
                        let k2 = choose|k2: int| 0 <= k2 < kept@.len() && kept@[k2] == j as usize;
                        assert(record_read(result@, interps@[kept@[k2] as int], word@, start_node as int));
                    }
                }
            }
            g = g + 1;
        }
        if result.len() == 0 {
            proof {
                assert(word_group_readings(result@, groups@, word@, case_handling, start_node as int));
                assert(result@ =~= Seq::<MorphInterpretation>::empty());
            }
            Ok(None)
        } else {
            proof {
                assert(word_group_readings(result@, groups@, word@, case_handling, start_node as int));
            }
            Ok(Some(result))
        }
    }

    /// Whether the character is one of the dictionary's separators.
    fn is_separator(&self, c: char) -> (r: bool)
        ensures
            r == self.segmentation_metadata.separators@.contains(c as u32),
    {
        let separators = &self.segmentation_metadata.separators;
        let v = c as u32;
        let mut i: usize = 0;
        while i < separators.len()
            invariant
                *separators == self.segmentation_metadata.separators,
                v == c as u32,
                i <= separators@.len(),
                forall|k: int| 0 <= k < i ==> separators@[k] != v,
            decreases separators@.len() - i,
        {
            if separators[i] == v {
                assert(separators@[i as int] == v);
                return true;
            }
            i = i + 1;
        }
        false
    }

    /// The readings of one word and the next free node. An unknown word is
    /// split on the dictionary's separators and each part analyzed (once);
    /// what stays unknown becomes one unknown-word reading.
    pub fn process_one_word(&self, word: &str, start_node: i32, case_handling: CaseHandling, segmentation: &SegmentationPreset, inside_ign_handler: bool) -> (r: Result<(Vec<MorphInterpretation>, i32)>)
        requires
            self.wf(),
            0 <= start_node,
        ensures
            r matches Ok((v, next)) ==> start_node <= next && edges_between(v@, 0, start_node as int, next as int),
            r matches Ok((v, next)) ==> (word@.len() == 0 <==> next == start_node),
            r matches Ok((v, next)) ==> (word@.len() == 0 <==> v@.len() == 0),
            word@.len() == 0 ==> (r matches Ok((v, next)) && v@.len() == 0 && next == start_node),
            !self.has_rules() && 0 < word@.len() && 4 * word@.len() < usize::MAX && start_node < i32::MAX - 1
                && self.recognized(word@) == Some(None::<(int, Seq<u8>)>) ==> (r matches Ok((v, next))
                && next == start_node + 1 && v@.len() == 1 && unknown_word_reading(v@[0], word@, start_node as int)),
            !self.has_rules() && 0 < word@.len() && start_node < i32::MAX - 1 ==> (r matches Ok((v, next))
                ==> next == start_node + 1 && self.whole_word_readings(word@, case_handling, start_node as int, v@)),
        decreases word@.len(), if inside_ign_handler { 0int } else { 2int },
    {
        if word.is_empty() {
            return Ok((Vec::new(), start_node));
        }
        if start_node >= i32::MAX - 1 {
            return Err(Error::OutOfRange(owned("node number overflow")));
        }
        match self.word_paths(word, segmentation)? {
            Some(w) => {
                if w.paths.len() > 0 {
                    match paths_to_morph_interpretations(w.paths, &w.groups, start_node, case_handling)? {
                        Some((interps, nodes)) => {
                            let next = node_at(start_node, nodes as usize)?;
                            Ok((interps, next))
                        },
                        None => {
                            let mut v: Vec<MorphInterpretation> = Vec::new();
                            v.push(ignotium(word, start_node));
                            Ok((v, start_node + 1))
                        },
                    }
                } else if inside_ign_handler {
                    let mut v: Vec<MorphInterpretation> = Vec::new();
                    v.push(ignotium(word, start_node));
                    Ok((v, start_node + 1))
                } else {
                    self.handle_ign_chunk(word, start_node, case_handling, segmentation)
                }
            },
            None => match self.lookup_word_interpretations(word, start_node, case_handling)? {
                Some(interps) => Ok((interps, start_node + 1)),
                None => {
                    let mut v: Vec<MorphInterpretation> = Vec::new();
                    v.push(ignotium(word, start_node));
                    Ok((v, start_node + 1))
                },
            },
        }
    }

    /// Splits an unknown word into its runs of non-separators and its
    /// separators, each analyzed in turn; a word with no separator stays one
    /// unknown-word reading.
    pub fn handle_ign_chunk(&self, word: &str, start_node: i32, case_handling: CaseHandling, segmentation: &SegmentationPreset) -> (r: Result<(Vec<MorphInterpretation>, i32)>)
        requires
            self.wf(),
            0 <= start_node < i32::MAX - 1,
        ensures
            r matches Ok((v, next)) ==> start_node < next && v@.len() > 0 && edges_between(v@, 0, start_node as int, next as int),
            (forall|i: int| 0 <= i < word@.len() ==> !self.separator_view(#[trigger] word@[i])) ==> (r matches Ok((v, next))
                && next == start_node + 1 && v@.len() == 1 && v@[0].orth@ == word@ && v@[0].lemma@ == word@
                && v@[0].start_node == start_node && v@[0].end_node == start_node + 1
                && v@[0].tag_id == 0 && v@[0].name_id == 0 && v@[0].labels_id == 0),
            word@.len() > 0 ==> (r matches Ok((v, next)) ==> self.read_by_pieces(word@, v@, start_node as int, next as int)),
        decreases word@.len(), 1int,
    {
        let chars = chars_of(word);
        let mut any = false;
        let mut i: usize = 0;
        while i < chars.len()
            invariant
                i <= chars@.len(),
                chars@ == word@,
                any == exists|k: int| 0 <= k < i && self.separator_view(#[trigger] word@[k]),
            decreases chars@.len() - i,
        {
            let ghost before = any;
            if self.is_separator(chars[i]) {
                any = true;
            }
            proof {
                let here = self.separator_view(word@[i as int]);
                assert(any == (before || here));
                if here {
                    assert(0 <= i < i + 1 && self.separator_view(word@[i as int]));
                }
                if exists|k: int| 0 <= k < i + 1 && self.separator_view(#[trigger] word@[k]) {
                    let k = choose|k: int| 0 <= k < i + 1 && self.separator_view(#[trigger] word@[k]);
                    if k < i {
                        assert(before);
                    }
                }
            }
            i = i + 1;
        }
        let ghost w = word@;
        if !any {
            let mut v: Vec<MorphInterpretation> = Vec::new();
            v.push(ignotium(word, start_node));
            proof {
                if w.len() > 0 {
                    self.lemma_pieces_without_separators(w, 0, 0);
                    let bs: Seq<Seq<MorphInterpretation>> = seq![v@];
                    let ns: Seq<int> = seq![start_node as int, start_node + 1];
                    assert(bs.flatten() == v@) by {
                        bs.lemma_flatten_one_element();
                    }
                    assert(piece_blocks(v@, bs, ns, start_node as int, start_node + 1));
                    assert(self.read_by_pieces(w, v@, start_node as int, start_node + 1));
                }
            }
            return Ok((v, start_node + 1));
        }
        let mut results: Vec<MorphInterpretation> = Vec::new();
        let mut node = start_node;
        let mut pending_start: usize = 0;
        let mut has_pending = false;
        let mut i: usize = 0;
        let ghost mut done: Seq<Seq<char>> = Seq::empty();
        let ghost mut bs: Seq<Seq<MorphInterpretation>> = Seq::empty();
        let ghost mut ns: Seq<int> = seq![start_node as int];
        proof {
            assert(done + self.pieces_from(w, 0, 0) =~= self.separator_pieces(w));
            assert(bs.flatten() =~= results@);
        }
        while i < chars.len()
            invariant
                self.wf(),
                chars@ == word@,
                w == word@,
                i <= chars@.len(),
                pending_start <= i,
                0 <= start_node,
                start_node <= node,
                edges_between(results@, 0, start_node as int, node as int),
                results@.len() > 0 ==> start_node < node,
                any,
                has_pending ==> pending_start < i,
                has_pending ==> forall|t: int| pending_start <= t < i ==> !self.separator_view(#[trigger] w[t]),
                done + self.pieces_from(w, i as int, if has_pending { pending_start as int } else { i as int })
                    == self.separator_pieces(w),
                piece_blocks(results@, bs, ns, start_node as int, node as int),
                bs.len() == done.len(),
            decreases chars@.len() - i,
        {
            let ghost ii = i as int;
            let ghost pend = if has_pending { pending_start as int } else { i as int };
            let sep_here = self.is_separator(chars[i]);
            proof {
                assert(sep_here == self.separator_view(w[ii]));
            }
            if sep_here {
                if has_pending {
                    let part = string_from_char_range(chars.as_slice(), pending_start, i);
                    let (interps, next) = self.process_one_word(part.as_str(), node, case_handling, segmentation, true)?;
                    let ghost before = results@;
                    append_all(&mut results, interps);
                    proof {
                        lemma_push_block(before, interps@, bs, ns, start_node as int, node as int, next as int);
                        bs = bs.push(interps@);
                        ns = ns.push(next as int);
                        done = done.push(part@);
                    }
                    node = next;
                    has_pending = false;
                }
                let sep = string_from_char_range(chars.as_slice(), i, i + 1);
                let (interps, next) = self.process_one_word(sep.as_str(), node, case_handling, segmentation, true)?;
                let ghost before = results@;
                append_all(&mut results, interps);
                proof {
                    lemma_push_block(before, interps@, bs, ns, start_node as int, node as int, next as int);
                    bs = bs.push(interps@);
                    ns = ns.push(next as int);
                    done = done.push(sep@);
                }
                node = next;
                pending_start = i + 1;
                proof {
                    let run = pending_run(w, pend, ii);
                    assert(self.pieces_from(w, ii, pend) == run + seq![seq![w[ii]]] + self.pieces_from(w, ii + 1, ii + 1));
                    assert(sep@ =~= seq![w[ii]]);
                    if pend < ii {
                        assert(done == done.drop_last().drop_last().push(w.subrange(pend, ii)).push(sep@));
                        assert(done.drop_last().drop_last() + run + seq![seq![w[ii]]] =~= done);
                    } else {
                        assert(run =~= Seq::<Seq<char>>::empty());
                        assert(done.drop_last() + run + seq![seq![w[ii]]] =~= done);
                    }
                    assert(done + self.pieces_from(w, ii + 1, ii + 1) == self.separator_pieces(w));
                }
            } else if !has_pending {
                has_pending = true;
                pending_start = i;
            }
            i = i + 1;
        }
        if has_pending {
            let part = string_from_char_range(chars.as_slice(), pending_start, chars.len());
            let (interps, next) = self.process_one_word(part.as_str(), node, case_handling, segmentation, true)?;
            let ghost before = results@;
            append_all(&mut results, interps);
            proof {
                lemma_push_block(before, interps@, bs, ns, start_node as int, node as int, next as int);
                bs = bs.push(interps@);
                ns = ns.push(next as int);
                done = done.push(part@);
                assert(self.pieces_from(w, w.len() as int, pending_start as int) == seq![w.subrange(pending_start as int, w.len() as int)]);
                assert(done =~= done.drop_last() + self.pieces_from(w, w.len() as int, pending_start as int));
            }
            node = next;
        } else {
            proof {
                assert(self.pieces_from(w, w.len() as int, w.len() as int) =~= Seq::<Seq<char>>::empty());
                assert(done + self.pieces_from(w, w.len() as int, w.len() as int) =~= done);
            }
        }
        proof {
            assert(bs.len() == self.separator_pieces(w).len());
            assert(piece_blocks(results@, bs, ns, start_node as int, node as int));
            assert(self.read_by_pieces(w, results@, start_node as int, node as int));
        }
        if results.len() == 0 {
            return Err(Error::invalid_dictionary("separator split produced no readings"));
        }
        Ok((results, node))
    }

    /// The pieces from position `i` of `w` on, where a run of
    /// non-separators began at `pend` (`pend == i` when none has).
    pub open spec fn pieces_from(&self, w: Seq<char>, i: int, pend: int) -> Seq<Seq<char>>
        decreases w.len() - i,
    {
        if i < 0 || i >= w.len() {
            pending_run(w, pend, i)
        } else if self.separator_view(w[i]) {
            pending_run(w, pend, i) + seq![seq![w[i]]] + self.pieces_from(w, i + 1, i + 1)
        } else {
            self.pieces_from(w, i + 1, pend)
        }
    }

    /// The pieces an unknown word is split into at the dictionary's
    /// separators: each separator alone and each run of other characters
    /// between them, in order.
    pub open spec fn separator_pieces(&self, w: Seq<char>) -> Seq<Seq<char>> {
        self.pieces_from(w, 0, 0)
    }

    /// The readings fall into one non-empty block per piece of the word, in
    /// order, each on its own run of increasing nodes from `start` to `next`.
    pub open spec fn read_by_pieces(&self, w: Seq<char>, v: Seq<MorphInterpretation>, start: int, next: int) -> bool {
        exists|bs: Seq<Seq<MorphInterpretation>>, ns: Seq<int>| #[trigger] piece_blocks(v, bs, ns, start, next)
            && bs.len() == self.separator_pieces(w).len()
    }

    /// No character of the piece is a separator.
    pub open spec fn is_run(&self, p: Seq<char>) -> bool {
        forall|t: int| 0 <= t < p.len() ==> !self.separator_view(#[trigger] p[t])
    }

    /// The piece is a single separator.
    pub open spec fn is_separator_piece(&self, p: Seq<char>) -> bool {
        p.len() == 1 && self.separator_view(p[0])
    }

    /// `pieces` cut `w` into single separators and longest runs of other
    /// characters: they join back into `w`, none is empty, and no two runs
    /// are next to each other.
    pub open spec fn splits_at_separators(&self, pieces: Seq<Seq<char>>, w: Seq<char>) -> bool {
        &&& pieces.flatten() == w
        &&& forall|k: int| 0 <= k < pieces.len() ==> (#[trigger] pieces[k]).len() > 0
            && (self.is_separator_piece(pieces[k]) || self.is_run(pieces[k]))
        &&& forall|k: int| 0 <= k < pieces.len() - 1 ==> !(self.is_run(#[trigger] pieces[k]) && self.is_run(pieces[k + 1]))
    }

    proof fn lemma_pieces_from(&self, w: Seq<char>, i: int, pend: int)
        requires
            0 <= pend <= i <= w.len(),
            forall|t: int| pend <= t < i ==> !self.separator_view(#[trigger] w[t]),
        ensures
            self.splits_at_separators(self.pieces_from(w, i, pend), w.subrange(pend, w.len() as int)),
        decreases w.len() - i,
    {
        broadcast use Seq::lemma_flatten_singleton;
        let ps = self.pieces_from(w, i, pend);
        if i >= w.len() {
            if pend < i {
                assert(ps == seq![w.subrange(pend, i)]);
                assert(ps.flatten() == ps[0]);
            } else {
                assert(ps =~= Seq::<Seq<char>>::empty());
                assert(w.subrange(pend, w.len() as int) =~= Seq::<char>::empty());
            }
        } else if self.separator_view(w[i]) {
            self.lemma_pieces_from(w, i + 1, i + 1);
            let run = pending_run(w, pend, i);
            let sep: Seq<Seq<char>> = seq![seq![w[i]]];
            let rest = self.pieces_from(w, i + 1, i + 1);
            assert(ps == run + sep + rest);
            lemma_flatten_concat(run + sep, rest);
            lemma_flatten_concat(run, sep);
            assert(sep.flatten() == seq![w[i]]);
            if pend < i {
                assert(run.flatten() == run[0]);
                assert(run.flatten() == w.subrange(pend, i));
            } else {
                assert(run =~= Seq::<Seq<char>>::empty());
                assert(run.flatten() =~= w.subrange(pend, i));
            }
            assert(ps.flatten() =~= w.subrange(pend, w.len() as int));
            let a = run.len();
            assert(!self.is_run(seq![w[i]])) by {
                assert(seq![w[i]][0] == w[i]);
            }
            assert forall|k: int| 0 <= k < ps.len() implies (#[trigger] ps[k]).len() > 0
                && (self.is_separator_piece(ps[k]) || self.is_run(ps[k])) by {
                if k < a {
                    assert(ps[k] == w.subrange(pend, i));
                    assert forall|t: int| 0 <= t < ps[k].len() implies !self.separator_view(#[trigger] ps[k][t]) by {
                        assert(ps[k][t] == w[pend + t]);
                    }
                } else if k == a {
                    assert(ps[k] == seq![w[i]]);
                } else {
                    assert(ps[k] == rest[k - a - 1]);
                }
            }
            assert forall|k: int| 0 <= k < ps.len() - 1 implies !(self.is_run(#[trigger] ps[k]) && self.is_run(ps[k + 1])) by {
                if k + 1 == a {
                    assert(ps[k + 1] == seq![w[i]]);
                } else if k == a {
                    assert(ps[k] == seq![w[i]]);
                } else if k > a {
                    assert(ps[k] == rest[k - a - 1]);
                    assert(ps[k + 1] == rest[k - a]);
                }
            }
        } else {
            self.lemma_pieces_from(w, i + 1, pend);
        }
    }

    proof fn lemma_pieces_without_separators(&self, w: Seq<char>, i: int, pend: int)
        requires
            0 <= pend <= i <= w.len(),
            pend < w.len(),
            forall|t: int| pend <= t < w.len() ==> !self.separator_view(#[trigger] w[t]),
        ensures
            self.pieces_from(w, i, pend) == seq![w.subrange(pend, w.len() as int)],
        decreases w.len() - i,
    {
        if i < w.len() {
            assert(!self.separator_view(w[i]));
            self.lemma_pieces_without_separators(w, i + 1, pend);
        }
    }

    /// An unknown word is split into single separators and the longest runs
    /// of other characters between them, which join back into the word.
    pub proof fn law_separator_pieces(&self, w: Seq<char>)
        ensures
            self.splits_at_separators(self.separator_pieces(w), w),
    {
        self.lemma_pieces_from(w, 0, 0);
        assert(w.subrange(0, w.len() as int) =~= w);
    }

    /// The readings of one whitespace-free word and the next free node.
    /// Nodes are numbered relative to the start node: from a negative start
    /// the word is analysed from node 0 and its readings moved back.
    pub fn analyze_native_word(&self, word: &str, start_node: i32, case_handling: CaseHandling, segmentation: &SegmentationPreset) -> (r: Result<(Vec<MorphInterpretation>, i32)>)
        requires
            self.wf(),
        ensures
            r matches Ok((v, next)) ==> start_node <= next && edges_between(v@, 0, start_node as int, next as int),
            !self.has_rules() && 0 < word@.len() && 4 * word@.len() < usize::MAX && start_node < i32::MAX - 1
                && self.recognized(word@) == Some(None::<(int, Seq<u8>)>) ==> (r matches Ok((v, next))
                && next == start_node + 1 && v@.len() == 1 && unknown_word_reading(v@[0], word@, start_node as int)),
            !self.has_rules() && 0 < word@.len() && 0 <= start_node < i32::MAX - 1 ==> (r matches Ok((v, next))
                ==> next == start_node + 1 && self.whole_word_readings(word@, case_handling, start_node as int, v@)),
    {
        if start_node >= 0 {
            return self.process_one_word(word, start_node, case_handling, segmentation, false);
        }
        let (v, next) = self.process_one_word(word, 0, case_handling, segmentation, false)?;
        let moved = move_readings(v, start_node);
        proof {
            assert forall|i: int| 0 <= i < moved@.len() implies start_node <= (#[trigger] moved@[i]).start_node
                && moved@[i].end_node <= next + start_node && moved@[i].start_node < moved@[i].end_node by {
                assert(moved_reading(moved@[i], v@[i], start_node as int));
            }
            if moved@.len() == 1 {
                assert(moved_reading(moved@[0], v@[0], start_node as int));
            }
        }
        Ok((moved, next + start_node))
    }

    /// Whether the preset's rule automaton has a transition from its start.
    pub fn has_segmentation_transitions(&self, segmentation: &SegmentationPreset) -> (r: Result<bool>)
        requires
            self.wf(),
        ensures
            r matches Err(e) ==> e is InvalidArgument,
    {
        Ok(has_initial_segmentation_transitions(self.segmentation_fsa(segmentation)?))
    }

    pub fn validate_segmentation(&self, segmentation: &SegmentationPreset, option: &str, value: &str) -> (r: Result<()>)
        requires
            self.wf(),
        ensures
            r matches Err(e) ==> e is InvalidArgument,
    {
        validate_segmentation_options(&self.segmentation_metadata, segmentation, option, value)
    }
}

/// Appends the readings, keeping the earlier ones.
pub fn append_all(result: &mut Vec<MorphInterpretation>, items: Vec<MorphInterpretation>)
    ensures
        final(result)@ == old(result)@ + items@,
{
    let mut items = items;
    let ghost orig = items@;
    let mut rev: Vec<MorphInterpretation> = Vec::new();
    assert(items@ + rev@.reverse() =~= orig);
    while items.len() > 0
        invariant
            items@ + rev@.reverse() == orig,
        decreases items@.len(),
    {
        let ghost ib = items@;
        let ghost rb = rev@;
        let x = items.pop().unwrap();
        rev.push(x);
        proof {
            assert(ib =~= items@.push(x));
            assert(rev@.reverse() =~= seq![x] + rb.reverse());
            assert(items@ + rev@.reverse() =~= ib + rb.reverse());
        }
    }
    assert(items@ =~= Seq::<MorphInterpretation>::empty());
    assert(rev@.reverse() =~= orig);
    let ghost all = rev@.reverse();
    let ghost start = result@;
    while rev.len() > 0
        invariant
            result@ + rev@.reverse() == start + all,
        decreases rev@.len(),
    {
        let ghost b = rev@;
        let ghost ro = result@;
        let x = rev.pop().unwrap();
        result.push(x);
        proof {
            assert(b =~= rev@.push(x));
            assert(b.reverse() =~= seq![x] + rev@.reverse());
            assert(result@ + rev@.reverse() =~= ro + b.reverse());
        }
    }
    assert(rev@.reverse() =~= Seq::<MorphInterpretation>::empty());
    assert(result@ =~= result@ + rev@.reverse());
}

impl Lexicon for BinaryAnalyzerLexicon {
    open spec fn lexicon_wf(&self) -> bool {
        self.wf()
    }

    open spec fn spec_resolver(&self) -> IdResolver {
        self.resolver_view()
    }

    open spec fn spec_id(&self) -> Seq<char> {
        self.id_view()
    }

    open spec fn spec_copyright(&self) -> Seq<char> {
        self.copyright_view()
    }

    fn id(&self) -> &str {
        self.data.dict_id()
    }

    fn copyright(&self) -> &str {
        self.data.copyright()
    }

    fn resolver(&self) -> (r: &IdResolver) {
        &self.resolver
    }

    open spec fn spec_lookup(&self, orth: Seq<char>) -> Option<Seq<EntryView>> {
        None
    }

    open spec fn spec_synthesize(&self, lemma: Seq<char>) -> Option<Seq<EntryView>> {
        None
    }

    fn lookup(&self, orth: &str) -> Option<&[DictionaryEntry]> {
        None
    }

    fn synthesize(&self, lemma: &str) -> Option<&[DictionaryEntry]> {
        None
    }

    fn default_aggl(&self) -> (r: Option<&str>)
        ensures
            str_option(r) == self.default_option_view("aggl"@),
    {
        self.segmentation_metadata.default_options.get("aggl")
    }

    fn default_praet(&self) -> (r: Option<&str>)
        ensures
            str_option(r) == self.default_option_view("praet"@),
    {
        self.segmentation_metadata.default_options.get("praet")
    }

    fn available_aggl_options(&self) -> (r: Vec<String>)
        ensures
            sorted_listing(str_views(r@), self.option_values_view("aggl"@)),
    {
        available_options_vec(&self.segmentation_metadata, "aggl")
    }

    fn available_praet_options(&self) -> (r: Vec<String>)
        ensures
            sorted_listing(str_views(r@), self.option_values_view("praet"@)),
    {
        available_options_vec(&self.segmentation_metadata, "praet")
    }

    fn validate_segmentation(&self, segmentation: &SegmentationPreset, option: &str, value: &str) -> (r: Result<()>)
        ensures
            r is Ok <==> self.accepts_view(*segmentation, option@),
    {
        validate_segmentation_options(&self.segmentation_metadata, segmentation, option, value)
    }

    fn is_native_analyzer(&self) -> (r: bool)
        ensures
            r,
    {
        true
    }

    fn analyze_native_word(&self, word: &str, start_node: i32, case_handling: CaseHandling, segmentation: &SegmentationPreset) -> (r: Result<(Vec<MorphInterpretation>, i32)>) {
        self.process_one_word(word, start_node, case_handling, segmentation, false)
    }

    /// Without segmentation rules, or without room for another node, a
    /// word has no segmented readings.
    fn analyze_word_interpretations(&self, orth: &str, start_node: i32, case_handling: CaseHandling, segmentation: &SegmentationPreset) -> (r: Result<Option<(Vec<MorphInterpretation>, i32)>>)
        ensures
            start_node >= i32::MAX || !self.has_rules() ==> r matches Ok(None),
    {
        if start_node >= i32::MAX {
            return Ok(None);
        }
        self.analyze_word_with_segmentation(orth, start_node, case_handling, segmentation)
    }

    /// The readings of the whole form as one edge, reported with
    /// `result_orth`; none where the form is its own result and the rules
    /// have a start (segmentation then decides).
    fn lookup_interpretations(&self, orth: &str, start_node: i32, end_node: i32, result_orth: &str, case_handling: CaseHandling, segmentation: &SegmentationPreset) -> (r: Result<Option<Vec<MorphInterpretation>>>)
        ensures
            orth@ != result_orth@ && 4 * orth@.len() < usize::MAX && self.recognized(orth@) == Some(None::<(int, Seq<u8>)>)
                ==> r matches Ok(None),
    {
        if str_eq(orth, result_orth) && self.has_segmentation_transitions(segmentation)? {
            return Ok(None);
        }
        let ghost absent = orth@ != result_orth@ && 4 * orth@.len() < usize::MAX
            && self.recognized(orth@) == Some(None::<(int, Seq<u8>)>);
        let groups = match self.lookup_encoded_groups(orth)? {
            Some(g) => g,
            None => {
                return Ok(None);
            },
        };
        assert(!absent);
        let mut result: Vec<MorphInterpretation> = Vec::new();
        let mut g: usize = 0;
        while g < groups.len()
            invariant
                g <= groups@.len(),
                !absent,
                absent == (orth@ != result_orth@ && 4 * orth@.len() < usize::MAX
                    && self.recognized(orth@) == Some(None::<(int, Seq<u8>)>)),
                crate::ports::all_on_edge(result@, start_node as int, end_node as int),
            decreases groups@.len() - g,
        {
            let interps = &groups[g].interpretations;
            let flags = encoded_match_flags(interps, orth);
            let kept = compatible_indices(&flags, case_handling);
            let mut k: usize = 0;
            while k < kept.len()
                invariant
                    forall|j: int| 0 <= j < kept@.len() ==> (#[trigger] kept@[j]) < interps@.len(),
                    !absent,
                    absent == (orth@ != result_orth@ && 4 * orth@.len() < usize::MAX
                    && self.recognized(orth@) == Some(None::<(int, Seq<u8>)>)),
                absent == (orth@ != result_orth@ && 4 * orth@.len() < usize::MAX
                    && self.recognized(orth@) == Some(None::<(int, Seq<u8>)>)),
                    crate::ports::all_on_edge(result@, start_node as int, end_node as int),
                decreases kept@.len() - k,
            {
                let m = interps[kept[k]].to_morph_interpretation(orth, start_node, end_node)?;
                result.push(MorphInterpretation {
                    start_node: m.start_node,
                    end_node: m.end_node,
                    orth: owned(result_orth),
                    lemma: m.lemma,
                    tag_id: m.tag_id,
                    name_id: m.name_id,
                    labels_id: m.labels_id,
                });
                k = k + 1;
            }
            g = g + 1;
        }
        if result.len() == 0 {
            Ok(None)
        } else {
            Ok(Some(result))
        }
    }
}

} // verus!
