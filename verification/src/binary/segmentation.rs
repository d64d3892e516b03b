//! The segmentation rules of a dictionary: the separators, the rule
//! automata for each combination of options, the dictionary's default
//! options, and the automaton's walk over segment types.
use vstd::prelude::*;
use vstd::set_lib::*;
use crate::config::SegmentationPreset;
use crate::error::{Error, Result};
use crate::ordered::{str_views, strictly_sorted, OptionsMap, SortedStrings};
use crate::text::{owned, push_str, str_eq};
use super::read::{
    be_u16, be_u32, c_string_at, lemma_c_string_at, dict_error, dict_error_num, read_c_string_from_slice, read_u16, read_u32, read_u8, truncated_at,
    validate_min_len,
};
use super::{SEGRULES_ACCEPTING_FLAG, SEGRULES_TRANSITION_SIZE, SEGRULES_WEAK_FLAG};

verus! {

/// The segmentation section of a dictionary.
#[derive(Debug, Clone, PartialEq, Eq)]
pub struct SegmentationMetadata {
    pub separators: Vec<u32>,
    pub fsa_variants: Vec<SegmentationFsaVariant>,
    pub default_options: OptionsMap,
}

/// One rule automaton and the options it is for.
#[derive(Debug, Clone, PartialEq, Eq)]
pub struct SegmentationFsaVariant {
    pub options: OptionsMap,
    pub fsa: Vec<u8>,
}

/// The two maps hold the same entries.
pub open spec fn same_options(a: OptionsMap, b: OptionsMap) -> bool {
    a.keys_view() == b.keys_view() && a.values_view() == b.values_view()
}

/// The value that a preset sets explicitly for an option.
pub open spec fn preset_value(seg: SegmentationPreset, option: Seq<char>) -> Option<Seq<char>> {
    if option == "aggl"@ {
        seg.spec_aggl()
    } else if option == "praet"@ {
        seg.spec_praet()
    } else {
        None
    }
}

/// The value expected for a default option: the preset's, else the default.
pub open spec fn expected_value(seg: SegmentationPreset, key: Seq<char>, default: Seq<char>) -> Seq<char> {
    match preset_value(seg, key) {
        Some(v) => v,
        None => default,
    }
}

/// The number of options once the preset's explicit ones are added to the
/// dictionary's defaults.
pub open spec fn effective_len(defaults: OptionsMap, seg: SegmentationPreset) -> int {
    defaults.keys_view().len()
        + (if seg.spec_aggl() is Some && !defaults.keys_view().contains("aggl"@) { 1int } else { 0 })
        + (if seg.spec_praet() is Some && !defaults.keys_view().contains("praet"@) { 1int } else { 0 })
}

/// An option that the defaults lack, and the preset sets, is in `opts` with
/// the preset's value.
pub open spec fn extra_option_ok(defaults: OptionsMap, opts: OptionsMap, option: Seq<char>, value: Option<Seq<char>>) -> bool {
    defaults.keys_view().contains(option) || match value {
        Some(v) => opts.view().dom().contains(option) && opts.view()[option] == v,
        None => true,
    }
}

/// Whether the options of a variant are those that the preset selects: the
/// defaults, each replaced by the preset's value where it sets one, plus the
/// preset's options that the defaults lack.
pub open spec fn preset_matches(defaults: OptionsMap, opts: OptionsMap, seg: SegmentationPreset) -> bool {
    &&& opts.keys_view().len() == effective_len(defaults, seg)
    &&& forall|i: int| 0 <= i < defaults.keys_view().len() ==>
        opts.view().dom().contains(#[trigger] defaults.keys_view()[i])
        && opts.view()[defaults.keys_view()[i]] == expected_value(seg, defaults.keys_view()[i], defaults.values_view()[i])
    &&& extra_option_ok(defaults, opts, "aggl"@, seg.spec_aggl())
    &&& extra_option_ok(defaults, opts, "praet"@, seg.spec_praet())
}

/// The defaults with the preset's explicit options set.
pub open spec fn effective_map(defaults: OptionsMap, seg: SegmentationPreset) -> Map<Seq<char>, Seq<char>> {
    let m1 = match seg.spec_aggl() {
        Some(a) => defaults.view().insert("aggl"@, a),
        None => defaults.view(),
    };
    match seg.spec_praet() {
        Some(p) => m1.insert("praet"@, p),
        None => m1,
    }
}

impl SegmentationMetadata {
    pub open spec fn wf(&self) -> bool {
        &&& self.default_options.wf()
        &&& forall|i: int| 0 <= i < self.fsa_variants@.len() ==> (#[trigger] self.fsa_variants@[i]).options.wf()
    }

    /// The first variant whose options are exactly `options`.
    pub fn fsa_variant_index_for_options(&self, options: &OptionsMap) -> (r: Option<usize>)
        requires
            self.wf(),
            options.wf(),
        ensures
            r matches Some(i) ==> i < self.fsa_variants@.len()
                && same_options(self.fsa_variants@[i as int].options, *options),
            forall|j: int| 0 <= j < (match r { Some(i) => i as int, None => self.fsa_variants@.len() as int })
                ==> !same_options(#[trigger] self.fsa_variants@[j].options, *options),
    {
        let mut i: usize = 0;
        while i < self.fsa_variants.len()
            invariant
                self.wf(),
                options.wf(),
                i <= self.fsa_variants@.len(),
                forall|j: int| 0 <= j < i ==> !same_options(#[trigger] self.fsa_variants@[j].options, *options),
            decreases self.fsa_variants@.len() - i,
        {
            if self.fsa_variants[i].options.same_entries(options) {
                return Some(i);
            }
            i = i + 1;
        }
        None
    }

    /// The first variant whose options are exactly `options`.
    pub fn fsa_variant_for_options(&self, options: &OptionsMap) -> (r: Option<&SegmentationFsaVariant>)
        requires
            self.wf(),
            options.wf(),
        ensures
            r matches Some(v) ==> exists|i: int| 0 <= i < self.fsa_variants@.len()
                && *v == self.fsa_variants@[i] && same_options(v.options, *options)
                && forall|j: int| 0 <= j < i ==> !same_options(#[trigger] self.fsa_variants@[j].options, *options),
            r is None ==> forall|j: int| 0 <= j < self.fsa_variants@.len()
                ==> !same_options(#[trigger] self.fsa_variants@[j].options, *options),
    {
        match self.fsa_variant_index_for_options(options) {
            Some(i) => Some(&self.fsa_variants[i]),
            None => None,
        }
    }

    /// The variant for the dictionary's default options.
    pub fn default_fsa_variant(&self) -> (r: Option<&SegmentationFsaVariant>)
        requires
            self.wf(),
        ensures
            r matches Some(v) ==> exists|i: int| 0 <= i < self.fsa_variants@.len()
                && *v == self.fsa_variants@[i] && same_options(v.options, self.default_options)
                && forall|j: int| 0 <= j < i ==> !same_options(#[trigger] self.fsa_variants@[j].options, self.default_options),
            r is None ==> forall|j: int| 0 <= j < self.fsa_variants@.len()
                ==> !same_options(#[trigger] self.fsa_variants@[j].options, self.default_options),
    {
        self.fsa_variant_for_options(&self.default_options)
    }

    /// How many options the preset sets that the defaults lack.
    fn extra_options_count(&self, segmentation: &SegmentationPreset) -> (n: usize)
        requires
            self.wf(),
        ensures
            n <= 2,
            self.default_options.keys_view().len() + n == effective_len(self.default_options, *segmentation),
    {
        let mut n: usize = 0;
        if segmentation.aggl().is_some() && !self.default_options.contains_key("aggl") {
            n = n + 1;
        }
        if segmentation.praet().is_some() && !self.default_options.contains_key("praet") {
            n = n + 1;
        }
        n
    }

    fn explicit_extra_option_matches(&self, variant: &SegmentationFsaVariant, option: &str, value: Option<&str>) -> (r: bool)
        requires
            self.wf(),
            variant.options.wf(),
        ensures
            r == extra_option_ok(self.default_options, variant.options, option@,
                match value { Some(v) => Some(v@), None => None }),
    {
        if self.default_options.contains_key(option) {
            return true;
        }
        match value {
            Some(v) => match variant.options.get(option) {
                Some(found) => str_eq(found, v),
                None => false,
            },
            None => true,
        }
    }

    /// Whether the variant's options are those that the preset selects.
    pub fn variant_matches_preset(&self, variant: &SegmentationFsaVariant, segmentation: &SegmentationPreset) -> (r: bool)
        requires
            self.wf(),
            variant.options.wf(),
        ensures
            r == preset_matches(self.default_options, variant.options, *segmentation),
    {
        let extra = self.extra_options_count(segmentation);
        let variant_len = variant.options.len();
        if variant_len < extra || variant_len - extra != self.default_options.len() {
            return false;
        }
        let mut i: usize = 0;
        while i < self.default_options.len()
            invariant
                self.wf(),
                variant.options.wf(),
                i <= self.default_options.keys_view().len(),
                forall|j: int| 0 <= j < i ==>
                    variant.options.view().dom().contains(#[trigger] self.default_options.keys_view()[j])
                    && variant.options.view()[self.default_options.keys_view()[j]]
                        == expected_value(*segmentation, self.default_options.keys_view()[j], self.default_options.values_view()[j]),
            decreases self.default_options.keys_view().len() - i,
        {
            let (key, default_value) = self.default_options.entry(i);
            let explicit = explicit_segmentation_value(segmentation, key);
            let expected = match explicit {
                Some(v) => v,
                None => default_value,
            };
            match variant.options.get(key) {
                Some(found) => {
                    if !str_eq(found, expected) {
                        return false;
                    }
                },
                None => {
                    return false;
                },
            }
            i = i + 1;
        }
        self.explicit_extra_option_matches(variant, "aggl", segmentation.aggl())
            && self.explicit_extra_option_matches(variant, "praet", segmentation.praet())
    }

    /// The index of the first variant that the preset selects.
    pub fn fsa_variant_index_for_preset(&self, segmentation: &SegmentationPreset) -> (r: Option<usize>)
        requires
            self.wf(),
        ensures
            r matches Some(i) ==> i < self.fsa_variants@.len()
                && preset_matches(self.default_options, self.fsa_variants@[i as int].options, *segmentation),
            forall|j: int| 0 <= j < (match r { Some(i) => i as int, None => self.fsa_variants@.len() as int })
                ==> !preset_matches(self.default_options, #[trigger] self.fsa_variants@[j].options, *segmentation),
    {
        let mut i: usize = 0;
        while i < self.fsa_variants.len()
            invariant
                self.wf(),
                i <= self.fsa_variants@.len(),
                forall|j: int| 0 <= j < i ==> !preset_matches(self.default_options,
                    #[trigger] self.fsa_variants@[j].options, *segmentation),
            decreases self.fsa_variants@.len() - i,
        {
            if self.variant_matches_preset(&self.fsa_variants[i], segmentation) {
                return Some(i);
            }
            i = i + 1;
        }
        None
    }

    /// The first variant that the preset selects.
    pub fn fsa_variant_for_preset(&self, segmentation: &SegmentationPreset) -> (r: Option<&SegmentationFsaVariant>)
        requires
            self.wf(),
        ensures
            r matches Some(v) ==> exists|i: int| 0 <= i < self.fsa_variants@.len()
                && *v == self.fsa_variants@[i] && preset_matches(self.default_options, v.options, *segmentation),
            r is None ==> forall|j: int| 0 <= j < self.fsa_variants@.len()
                ==> !preset_matches(self.default_options, #[trigger] self.fsa_variants@[j].options, *segmentation),
    {
        match self.fsa_variant_index_for_preset(segmentation) {
            Some(i) => Some(&self.fsa_variants[i]),
            None => None,
        }
    }

    /// The values that the variants give `option`, each once, in order.
    pub fn available_options(&self, option: &str) -> (r: Vec<String>)
        requires
            self.wf(),
        ensures
            strictly_sorted(str_views(r@)),
            forall|s: Seq<char>| str_views(r@).contains(s) <==> exists|i: int| 0 <= i < self.fsa_variants@.len()
                && (#[trigger] self.fsa_variants@[i]).options.view().dom().contains(option@)
                && self.fsa_variants@[i].options.view()[option@] == s,
    {
        let mut set = SortedStrings::new();
        let mut i: usize = 0;
        while i < self.fsa_variants.len()
            invariant
                self.wf(),
                set.wf(),
                i <= self.fsa_variants@.len(),
                forall|s: Seq<char>| set.view().contains(s) <==> exists|j: int| 0 <= j < i
                    && (#[trigger] self.fsa_variants@[j]).options.view().dom().contains(option@)
                    && self.fsa_variants@[j].options.view()[option@] == s,
            decreases self.fsa_variants@.len() - i,
        {
            let ghost before = set.view();
            match self.fsa_variants[i].options.get(option) {
                Some(value) => {
                    set.insert(value);
                    proof {
                        assert forall|s: Seq<char>| set.view().contains(s) <==> exists|j: int| 0 <= j < i + 1
                            && (#[trigger] self.fsa_variants@[j]).options.view().dom().contains(option@)
                            && self.fsa_variants@[j].options.view()[option@] == s by {
                            if set.view().contains(s) && s != value@ {
                                assert(before.contains(s));
                            }
                            if s == value@ {
                                assert(self.fsa_variants@[i as int].options.view().dom().contains(option@));
                            }
                        }
                    }
                },
                None => {
                    proof {
                        assert forall|s: Seq<char>| set.view().contains(s) <==> exists|j: int| 0 <= j < i + 1
                            && (#[trigger] self.fsa_variants@[j]).options.view().dom().contains(option@)
                            && self.fsa_variants@[j].options.view()[option@] == s by {
                            if exists|j: int| 0 <= j < i + 1
                                && (#[trigger] self.fsa_variants@[j]).options.view().dom().contains(option@)
                                && self.fsa_variants@[j].options.view()[option@] == s {
                                let j = choose|j: int| 0 <= j < i + 1
                                    && (#[trigger] self.fsa_variants@[j]).options.view().dom().contains(option@)
                                    && self.fsa_variants@[j].options.view()[option@] == s;
                                assert(j != i);
                            }
                        }
                    }
                },
            }
            i = i + 1;
        }
        set.into_vec()
    }
}

impl SegmentationFsaVariant {
    /// The variant's rule automaton, after its checks.
    pub fn rules_fsa(&self) -> (r: Result<SegmentationRulesFsa<'_>>)
        ensures
            r is Ok ==> seg_table_fits(self.fsa@, 0),
            r matches Ok(f) ==> f.data_view() == self.fsa@,
            r matches Err(e) ==> e is InvalidDictionary,
    {
        SegmentationRulesFsa::new(self.fsa.as_slice())
    }
}

/// The value that the preset sets for `option`, if it names one.
pub fn explicit_segmentation_value<'a>(segmentation: &'a SegmentationPreset, option: &str) -> (r: Option<&'a str>)
    ensures
        r is Some <==> preset_value(*segmentation, option@) is Some,
        r matches Some(v) ==> preset_value(*segmentation, option@) == Some(v@),
{
    if str_eq(option, "aggl") {
        segmentation.aggl()
    } else if str_eq(option, "praet") {
        segmentation.praet()
    } else {
        None
    }
}

/// A position of the rule automaton and what it says of the segments read.
#[derive(Debug, Clone, Copy, PartialEq, Eq, Structural)]
pub struct SegmentationState {
    pub offset: usize,
    pub accepting: bool,
    pub weak: bool,
    pub shift_orth_from_previous: bool,
    pub sink: bool,
    pub failed: bool,
}

impl SegmentationState {
    pub open spec fn spec_initial() -> Self {
        SegmentationState {
            offset: 0,
            accepting: false,
            weak: false,
            shift_orth_from_previous: false,
            sink: false,
            failed: false,
        }
    }

    /// The state before any segment.
    pub fn initial() -> (s: Self)
        ensures
            s == Self::spec_initial(),
    {
        SegmentationState {
            offset: 0,
            accepting: false,
            weak: false,
            shift_orth_from_previous: false,
            sink: false,
            failed: false,
        }
    }

    /// The state after a segment sequence that no rule allows.
    pub fn failed() -> (s: Self)
        ensures
            s.offset == 0 && !s.accepting && !s.weak && !s.shift_orth_from_previous && s.sink && s.failed,
    {
        SegmentationState {
            offset: 0,
            accepting: false,
            weak: false,
            shift_orth_from_previous: false,
            sink: true,
            failed: true,
        }
    }
}

/// The state at `offset` and its transition table lie within the data.
pub open spec fn seg_table_fits(data: Seq<u8>, offset: int) -> bool {
    &&& 0 <= offset
    &&& offset + 2 <= data.len()
    &&& offset + 2 + 4 * (data[offset + 1] as int) <= data.len()
}

/// The state stored at `offset`.
pub open spec fn seg_state(data: Seq<u8>, offset: int) -> SegmentationState {
    let accepting = data[offset] & SEGRULES_ACCEPTING_FLAG != 0;
    let sink = data[offset + 1] == 0;
    SegmentationState {
        offset: offset as usize,
        accepting,
        weak: data[offset] & SEGRULES_WEAK_FLAG != 0,
        shift_orth_from_previous: false,
        sink,
        failed: !accepting && sink,
    }
}

/// The last of the first `k` transitions from `start` whose segment type is
/// `segnum`: its offset.
pub open spec fn seg_find(data: Seq<u8>, start: int, k: nat, segnum: u8) -> Option<int>
    decreases k,
{
    if k == 0 {
        None
    } else if data[start + 4 * (k - 1)] == segnum {
        Some(start + 4 * (k - 1))
    } else {
        seg_find(data, start, (k - 1) as nat, segnum)
    }
}

/// Whether the automaton may stand in `state` there: at the end of a word
/// only an accepting state, elsewhere any state that has transitions.
pub open spec fn seg_allows(state: SegmentationState, at_end_of_word: bool) -> bool {
    if at_end_of_word {
        state.accepting
    } else {
        !state.sink
    }
}

/// One step on segment type `segnum`: `None` where the data is malformed or
/// the state failed, else the next state if a transition allows it.
pub open spec fn seg_next(data: Seq<u8>, state: SegmentationState, segnum: u8, at_end_of_word: bool) -> Option<Option<SegmentationState>> {
    if state.failed || !seg_table_fits(data, state.offset as int) {
        None
    } else {
        match seg_find(data, state.offset + 2, data[state.offset + 1] as nat, segnum) {
            None => Some(None),
            Some(t) => {
                let target = be_u16(data, t + 2);
                if !seg_table_fits(data, target) {
                    None
                } else {
                    let s = SegmentationState { shift_orth_from_previous: data[t + 1] != 0, ..seg_state(data, target) };
                    if seg_allows(s, at_end_of_word) {
                        Some(Some(s))
                    } else {
                        Some(None)
                    }
                }
            },
        }
    }
}

/// A rule automaton over segment types.
#[derive(Debug, Clone)]
pub struct SegmentationRulesFsa<'a> {
    data: &'a [u8],
}

impl<'a> SegmentationRulesFsa<'a> {
    pub closed spec fn data_view(&self) -> Seq<u8> {
        self.data@
    }

    /// The automaton over `data`, after checking that every state reachable
    /// from the initial one lies within the data.
    pub fn new(data: &'a [u8]) -> (r: Result<Self>)
        ensures
            r is Ok <==> seg_rules_valid(data@),
            r is Ok ==> seg_table_fits(data@, 0),
            r matches Ok(f) ==> f.data_view() == data@,
            r matches Err(e) ==> e is InvalidDictionary,
    {
        validate_min_len(data, 2, "segmentation FSA initial state")?;
        validate_reachable_segmentation_states(data)?;
        Ok(SegmentationRulesFsa { data })
    }

    /// The automaton over data checked when its dictionary was loaded; each
    /// step still checks every read.
    pub fn from_data_unchecked(data: &'a [u8]) -> (f: Self)
        ensures
            f.data_view() == data@,
    {
        SegmentationRulesFsa { data }
    }

    pub fn initial_state(&self) -> (s: SegmentationState)
        ensures
            s == SegmentationState::spec_initial(),
    {
        SegmentationState::initial()
    }

    /// The state after segment type `segnum`, or `None` when no transition
    /// allows it. It fails with `InvalidArgument` from a failed state and
    /// with `InvalidDictionary` where the data is malformed.
    pub fn proceed_to_next(&self, segnum: u8, state: SegmentationState, at_end_of_word: bool) -> (r: Result<Option<SegmentationState>>)
        ensures
            r is Err <==> seg_next(self.data_view(), state, segnum, at_end_of_word) is None,
            r matches Ok(o) ==> seg_next(self.data_view(), state, segnum, at_end_of_word) == Some(o),
            r matches Err(e) ==> (state.failed ==> e is InvalidArgument) && (!state.failed ==> e is InvalidDictionary),
    {
        if state.failed {
            return Err(Error::invalid_argument("cannot proceed from a failed segmentation state"));
        }
        let candidate = self.find_transition(segnum, state)?;
        match candidate {
            Some(next) => {
                if Self::allows_transition(next, at_end_of_word) {
                    Ok(Some(next))
                } else {
                    Ok(None)
                }
            },
            None => Ok(None),
        }
    }

    fn find_transition(&self, segnum: u8, state: SegmentationState) -> (r: Result<Option<SegmentationState>>)
        requires
            !state.failed,
        ensures
            r is Err <==> (!seg_table_fits(self.data@, state.offset as int) || match seg_find(self.data@,
                state.offset + 2, self.data@[state.offset + 1] as nat, segnum) {
                Some(t) => !seg_table_fits(self.data@, be_u16(self.data@, t + 2)),
                None => false,
            }),
            r matches Ok(o) ==> match seg_find(self.data@, state.offset + 2, self.data@[state.offset + 1] as nat, segnum) {
                Some(t) => o == Some(SegmentationState {
                    shift_orth_from_previous: self.data@[t + 1] != 0,
                    ..seg_state(self.data@, be_u16(self.data@, t + 2))
                }),
                None => o is None,
            },
            r matches Err(e) ==> e is InvalidDictionary,
    {
        let n = self.data.len();
        if state.offset > usize::MAX - 2 {
            return Err(dict_error("segmentation FSA state offset overflow", ""));
        }
        validate_min_len(self.data, state.offset + 2, "segmentation FSA state")?;
        let table_start = state.offset + 2;
        let transitions_num = self.data[state.offset + 1] as usize;
        let table_end = checked_transition_table_end(table_start, transitions_num)?;
        validate_min_len(self.data, table_end, "segmentation FSA transitions")?;
        let mut cursor = table_end;
        let mut k: usize = transitions_num;
        while k > 0
            invariant
                k <= transitions_num,
                transitions_num == self.data@[state.offset + 1],
                table_start == state.offset + 2,
                cursor == table_start + 4 * k,
                table_start + 4 * transitions_num <= self.data@.len(),
                seg_find(self.data@, table_start as int, transitions_num as nat, segnum)
                    == seg_find(self.data@, table_start as int, k as nat, segnum),
            decreases k,
        {
            cursor = cursor - SEGRULES_TRANSITION_SIZE;
            if self.data[cursor] == segnum {
                let s = Self::transition_to_state(self.data, cursor)?;
                return Ok(Some(s));
            }
            k = k - 1;
        }
        Ok(None)
    }

    fn transition_to_state(data: &[u8], transition_offset: usize) -> (r: Result<SegmentationState>)
        requires
            transition_offset + 4 <= data@.len(),
        ensures
            r is Ok <==> seg_table_fits(data@, be_u16(data@, transition_offset + 2)),
            r matches Ok(s) ==> s == (SegmentationState {
                shift_orth_from_previous: data@[transition_offset + 1] != 0,
                ..seg_state(data@, be_u16(data@, transition_offset + 2))
            }),
            r matches Err(e) ==> e is InvalidDictionary,
    {
        let n = data.len();
        let shift_orth_from_previous = data[transition_offset + 1] != 0;
        let target_offset: usize = (data[transition_offset + 2] as usize) * 256 + data[transition_offset + 3] as usize;
        let mut state = Self::state_at(data, target_offset)?;
        state.shift_orth_from_previous = shift_orth_from_previous;
        Ok(state)
    }

    fn state_at(data: &[u8], offset: usize) -> (r: Result<SegmentationState>)
        requires
            offset < 65536,
        ensures
            r is Ok <==> seg_table_fits(data@, offset as int),
            r matches Ok(s) ==> s == seg_state(data@, offset as int),
            r matches Err(e) ==> e is InvalidDictionary,
    {
        validate_min_len(data, offset + 2, "segmentation FSA target state")?;
        let transitions_num = data[offset + 1] as usize;
        let table_end = checked_transition_table_end(offset + 2, transitions_num)?;
        validate_min_len(data, table_end, "segmentation FSA target transitions")?;
        let accepting = data[offset] & SEGRULES_ACCEPTING_FLAG != 0;
        let weak = data[offset] & SEGRULES_WEAK_FLAG != 0;
        let sink = transitions_num == 0;
        Ok(SegmentationState {
            offset,
            accepting,
            weak,
            shift_orth_from_previous: false,
            sink,
            failed: !accepting && sink,
        })
    }

    fn allows_transition(state: SegmentationState, at_end_of_word: bool) -> (r: bool)
        ensures
            r == seg_allows(state, at_end_of_word),
    {
        if at_end_of_word {
            state.accepting
        } else {
            !state.sink
        }
    }
}

/// The rule automaton has no transition from its start.
pub open spec fn no_initial_transitions(f: Option<Seq<u8>>) -> bool {
    !(f matches Some(d) && d.len() > 1 && d[1] > 0)
}

/// Whether the automaton, if any, has a transition from its initial state.
pub fn has_initial_segmentation_transitions(fsa: Option<&[u8]>) -> (r: bool)
    ensures
        r == (fsa matches Some(d) && d@.len() > 1 && d@[1] > 0),
{
    match fsa {
        Some(d) => d.len() > 1 && d[1] > 0,
        None => false,
    }
}

/// The index of the variant for the dictionary's default options.
pub fn default_segmentation_fsa_variant_index(metadata: &SegmentationMetadata) -> (r: Option<usize>)
    requires
        metadata.wf(),
    ensures
        r matches Some(i) ==> i < metadata.fsa_variants@.len()
            && same_options(metadata.fsa_variants@[i as int].options, metadata.default_options),
        forall|j: int| 0 <= j < (match r { Some(i) => i as int, None => metadata.fsa_variants@.len() as int })
            ==> !same_options(#[trigger] metadata.fsa_variants@[j].options, metadata.default_options),
{
    metadata.fsa_variant_index_for_options(&metadata.default_options)
}

/// The dictionary's default options with the preset's explicit ones set.
pub fn effective_segmentation_options(metadata: &SegmentationMetadata, segmentation: &SegmentationPreset) -> (r: OptionsMap)
    requires
        metadata.wf(),
    ensures
        r.wf(),
        r.view() == effective_map(metadata.default_options, *segmentation),
{
    let mut options = metadata.default_options.copy();
    if let Some(aggl) = segmentation.aggl() {
        options.insert("aggl", aggl);
    }
    if let Some(praet) = segmentation.praet() {
        options.insert("praet", praet);
    }
    options
}

/// The rule automaton that the preset selects: `None` where the dictionary
/// has no rules, else the first variant that the preset selects, else the
/// first whose options are the effective ones; `InvalidArgument` when none
/// is.
pub fn segmentation_fsa_for_options<'a>(metadata: &'a SegmentationMetadata, segmentation: &SegmentationPreset) -> (r: Result<Option<&'a [u8]>>)
    requires
        metadata.wf(),
    ensures
        metadata.fsa_variants@.len() == 0 ==> r matches Ok(None),
        r matches Ok(Some(f)) ==> exists|i: int| 0 <= i < metadata.fsa_variants@.len()
            && f@ == metadata.fsa_variants@[i].fsa@
            && (preset_matches(metadata.default_options, metadata.fsa_variants@[i].options, *segmentation)
                || metadata.fsa_variants@[i].options.view() == effective_map(metadata.default_options, *segmentation)),
        (exists|i: int| 0 <= i < metadata.fsa_variants@.len()
            && preset_matches(metadata.default_options, #[trigger] metadata.fsa_variants@[i].options, *segmentation))
            ==> r is Ok,
        r is Ok ==> r matches Ok(Some(_)) || metadata.fsa_variants@.len() == 0,
        r matches Err(e) ==> e is InvalidArgument,
        forall|j: int| 0 <= j < metadata.fsa_variants@.len()
            && preset_matches(metadata.default_options, #[trigger] metadata.fsa_variants@[j].options, *segmentation)
            && (forall|k: int| 0 <= k < j ==> !preset_matches(metadata.default_options, #[trigger] metadata.fsa_variants@[k].options, *segmentation))
            ==> (r matches Ok(Some(f)) && f@ == metadata.fsa_variants@[j].fsa@),
        !variant_selected(*metadata, *segmentation) ==> forall|j: int| 0 <= j < metadata.fsa_variants@.len()
            && (#[trigger] metadata.fsa_variants@[j]).options.view() == effective_map(metadata.default_options, *segmentation)
            && (forall|k: int| 0 <= k < j ==> (#[trigger] metadata.fsa_variants@[k]).options.view() != effective_map(metadata.default_options, *segmentation))
            ==> (r matches Ok(Some(f)) && f@ == metadata.fsa_variants@[j].fsa@),
        metadata.fsa_variants@.len() > 0 && !variant_selected(*metadata, *segmentation)
            && (forall|j: int| 0 <= j < metadata.fsa_variants@.len()
                ==> (#[trigger] metadata.fsa_variants@[j]).options.view() != effective_map(metadata.default_options, *segmentation))
            ==> (r matches Err(Error::InvalidArgument(m)) && exists|o: OptionsMap| o.wf() && o.view() == effective_map(metadata.default_options, *segmentation)
                && m@ == "Invalid segmentation options: "@ + entries_list(o.keys_view(), o.values_view(), o.keys_view().len())),
{
    if metadata.fsa_variants.len() == 0 {
        return Ok(None);
    }
    match metadata.fsa_variant_index_for_preset(segmentation) {
        Some(i) => {
            return Ok(Some(metadata.fsa_variants[i].fsa.as_slice()));
        },
        None => {},
    }
    let options = effective_segmentation_options(metadata, segmentation);
    proof {
        assert forall|j: int| 0 <= j < metadata.fsa_variants@.len() implies
            same_options(#[trigger] metadata.fsa_variants@[j].options, options)
                == (metadata.fsa_variants@[j].options.view() == options.view()) by {
            assert(metadata.fsa_variants@[j].options.wf());
            if metadata.fsa_variants@[j].options.view() == options.view() {
                OptionsMap::lemma_view_determines(metadata.fsa_variants@[j].options, options);
            }
        }
    }
    match metadata.fsa_variant_index_for_options(&options) {
        Some(i) => {
            proof {
                assert(metadata.fsa_variants@[i as int].options.view() == options.view());
            }
            Ok(Some(metadata.fsa_variants[i].fsa.as_slice()))
        },
        None => {
            let mut message = owned("Invalid segmentation options: ");
            let formatted = format_options_map(&options);
            push_str(&mut message, formatted.as_str());
            proof {
                reveal_strlit("Invalid segmentation options: ");
            }
            Err(Error::InvalidArgument(message))
        },
    }
}

/// The values that the rule variants give an option.
pub open spec fn option_values(m: SegmentationMetadata, option: Seq<char>) -> Set<Seq<char>> {
    Set::new(|s: Seq<char>| exists|i: int| 0 <= i < m.fsa_variants@.len()
        && (#[trigger] m.fsa_variants@[i]).options.view().dom().contains(option)
        && m.fsa_variants@[i].options.view()[option] == s)
}

/// The strings are the set's members, each once, in code point order.
pub open spec fn sorted_listing(r: Seq<Seq<char>>, values: Set<Seq<char>>) -> bool {
    &&& strictly_sorted(r)
    &&& forall|s: Seq<char>| r.contains(s) <==> values.contains(s)
}

/// The default value the section gives an option, if any.
pub open spec fn default_option(m: SegmentationMetadata, option: Seq<char>) -> Option<Seq<char>> {
    if m.default_options.view().dom().contains(option) {
        Some(m.default_options.view()[option])
    } else {
        None
    }
}

/// The values that the variants give `option`, each once, in order.
pub fn available_options_vec(metadata: &SegmentationMetadata, option: &str) -> (r: Vec<String>)
    requires
        metadata.wf(),
    ensures
        sorted_listing(str_views(r@), option_values(*metadata, option@)),
        strictly_sorted(str_views(r@)),
        forall|s: Seq<char>| str_views(r@).contains(s) <==> exists|i: int| 0 <= i < metadata.fsa_variants@.len()
            && (#[trigger] metadata.fsa_variants@[i]).options.view().dom().contains(option@)
            && metadata.fsa_variants@[i].options.view()[option@] == s,
{
    metadata.available_options(option)
}

/// Whether a preset passes the checks of the segmentation section after
/// `option` was set: there are no rules, or the option is one the section
/// names and a rule variant matches the preset.
pub open spec fn accepts_option(metadata: SegmentationMetadata, preset: SegmentationPreset, option: Seq<char>) -> bool {
    metadata.fsa_variants@.len() == 0 || (metadata.default_options.keys_view().contains(option)
        && exists|i: int| 0 <= i < metadata.fsa_variants@.len()
            && preset_matches(metadata.default_options, #[trigger] metadata.fsa_variants@[i].options, preset))
}

/// The bytes of an optional slice.
pub open spec fn bytes_option(o: Option<&[u8]>) -> Option<Seq<u8>> {
    match o {
        Some(f) => Some(f@),
        None => None,
    }
}

/// Some rule variant matches the preset.
pub open spec fn variant_selected(m: SegmentationMetadata, preset: SegmentationPreset) -> bool {
    exists|i: int| 0 <= i < m.fsa_variants@.len() && preset_matches(m.default_options, #[trigger] m.fsa_variants@[i].options, preset)
}

/// `f` is the rule automaton for the preset: the default variant's where
/// the preset chooses no option and there is one; none where there are no
/// rules; else that of a variant the preset matches or whose options are
/// the effective ones.
pub open spec fn fsa_selected(m: SegmentationMetadata, default_index: Option<usize>, preset: SegmentationPreset, f: Option<Seq<u8>>) -> bool {
    if preset.spec_aggl() is None && preset.spec_praet() is None && default_index is Some {
        f == Some(m.fsa_variants@[default_index.unwrap() as int].fsa@)
    } else if m.fsa_variants@.len() == 0 {
        f is None
    } else {
        f is Some && exists|i: int| 0 <= i < m.fsa_variants@.len()
            && f.unwrap() == #[trigger] m.fsa_variants@[i].fsa@
            && (preset_matches(m.default_options, m.fsa_variants@[i].options, preset)
                || m.fsa_variants@[i].options.view() == effective_map(m.default_options, preset))
    }
}

/// Checks a preset after `option` was set to `value`: fine where the
/// dictionary has no rules or a variant matches; `InvalidArgument` when the
/// dictionary has no such option or no variant matches.
pub fn validate_segmentation_options(metadata: &SegmentationMetadata, segmentation: &SegmentationPreset, option: &str, value: &str) -> (r: Result<()>)
    requires
        metadata.wf(),
    ensures
        r is Ok <==> (metadata.fsa_variants@.len() == 0 || (metadata.default_options.keys_view().contains(option@)
            && exists|i: int| 0 <= i < metadata.fsa_variants@.len()
                && preset_matches(metadata.default_options, #[trigger] metadata.fsa_variants@[i].options, *segmentation))),
        r is Ok <==> accepts_option(*metadata, *segmentation, option@),
        r matches Err(e) ==> e is InvalidArgument,
{
    if metadata.fsa_variants.len() == 0 {
        return Ok(());
    }
    if !metadata.default_options.contains_key(option) {
        let mut message = owned("Invalid segmentation option '");
        push_str(&mut message, option);
        push_str(&mut message, "'");
        return Err(Error::InvalidArgument(message));
    }
    match metadata.fsa_variant_index_for_preset(segmentation) {
        Some(i) => {
            return Ok(());
        },
        None => {},
    }
    let mut message = owned("Invalid \"");
    push_str(&mut message, option);
    push_str(&mut message, "\" option: \"");
    push_str(&mut message, value);
    push_str(&mut message, "\". Possible values: ");
    let available = format_available_options(metadata, option);
    push_str(&mut message, available.as_str());
    Err(Error::InvalidArgument(message))
}

/// `"a", "b"`: the strings, each in double quotes, joined by commas.
pub open spec fn quoted_list(items: Seq<Seq<char>>, n: nat) -> Seq<char>
    decreases n,
{
    if n == 0 {
        Seq::empty()
    } else if n == 1 {
        "\""@ + items[0] + "\""@
    } else {
        quoted_list(items, (n - 1) as nat) + ", \""@ + items[n - 1] + "\""@
    }
}

/// The values that the variants give `option`, quoted and joined.
pub fn format_available_options(metadata: &SegmentationMetadata, option: &str) -> (r: String)
    requires
        metadata.wf(),
    ensures
        exists|v: Seq<Seq<char>>| #![auto] strictly_sorted(v)
            && (forall|s: Seq<char>| v.contains(s) <==> exists|i: int| 0 <= i < metadata.fsa_variants@.len()
                && (#[trigger] metadata.fsa_variants@[i]).options.view().dom().contains(option@)
                && metadata.fsa_variants@[i].options.view()[option@] == s)
            && r@ == quoted_list(v, v.len()),
{
    let values = metadata.available_options(option);
    let mut out = String::new();
    let mut i: usize = 0;
    while i < values.len()
        invariant
            i <= values@.len(),
            out@ == quoted_list(str_views(values@), i as nat),
        decreases values@.len() - i,
    {
        if i > 0 {
            push_str(&mut out, ", ");
        }
        push_str(&mut out, "\"");
        push_str(&mut out, values[i].as_str());
        push_str(&mut out, "\"");
        proof {
            assert(str_views(values@)[i as int] == values@[i as int]@);
            if i == 0 {
                assert(out@ =~= "\""@ + values@[0]@ + "\""@);
            } else {
                assert(out@ =~= quoted_list(str_views(values@), i as nat) + ", \""@ + values@[i as int]@ + "\""@) by {
                    reveal_strlit(", ");
                    reveal_strlit("\"");
                    reveal_strlit(", \"");
                }
            }
        }
        i = i + 1;
    }
    assert(str_views(values@).len() == values@.len());
    out
}

/// `k=v, k2=v2`: the entries in key order.
pub open spec fn entries_list(keys: Seq<Seq<char>>, values: Seq<Seq<char>>, n: nat) -> Seq<char>
    decreases n,
{
    if n == 0 {
        Seq::empty()
    } else if n == 1 {
        keys[0] + "="@ + values[0]
    } else {
        entries_list(keys, values, (n - 1) as nat) + ", "@ + keys[n - 1] + "="@ + values[n - 1]
    }
}

/// The entries of the map in key order, `key=value`, joined by commas.
pub fn format_options_map(options: &OptionsMap) -> (r: String)
    requires
        options.wf(),
    ensures
        r@ == entries_list(options.keys_view(), options.values_view(), options.keys_view().len()),
{
    let mut out = String::new();
    let mut i: usize = 0;
    while i < options.len()
        invariant
            options.wf(),
            i <= options.keys_view().len(),
            out@ == entries_list(options.keys_view(), options.values_view(), i as nat),
        decreases options.keys_view().len() - i,
    {
        let (key, value) = options.entry(i);
        if i > 0 {
            push_str(&mut out, ", ");
        }
        push_str(&mut out, key);
        push_str(&mut out, "=");
        push_str(&mut out, value);
        proof {
            if i == 0 {
                assert(out@ =~= key@ + "="@ + value@);
            } else {
                assert(out@ =~= entries_list(options.keys_view(), options.values_view(), i as nat) + ", "@ + key@ + "="@ + value@);
            }
        }
        i = i + 1;
    }
    out
}

/// The end of a transition table of `transitions_num` entries from `cursor`.
pub fn checked_transition_table_end(cursor: usize, transitions_num: usize) -> (r: Result<usize>)
    ensures
        r is Ok <==> cursor + 4 * transitions_num <= usize::MAX,
        r matches Ok(end) ==> end == cursor + 4 * transitions_num,
        r matches Err(e) ==> e is InvalidDictionary,
{
    if transitions_num > (usize::MAX - cursor) / SEGRULES_TRANSITION_SIZE {
        return Err(dict_error("segmentation FSA transition table overflow", ""));
    }
    Ok(cursor + transitions_num * SEGRULES_TRANSITION_SIZE)
}

/// A rule automaton that loads: its initial state has a header and every
/// reachable state is well placed.
pub open spec fn seg_rules_valid(data: Seq<u8>) -> bool {
    &&& data.len() >= 2
    &&& data.len() < usize::MAX
    &&& seg_states_ok(data)
}

/// The target offset of transition `j` of the state at `offset`.
pub open spec fn seg_target(data: Seq<u8>, offset: int, j: int) -> int {
    be_u16(data, offset + 2 + 4 * j + 2)
}

/// The state at `offset` has its transition table within the data and every
/// target has room for a state header.
pub open spec fn seg_state_ok(data: Seq<u8>, offset: int) -> bool {
    &&& seg_table_fits(data, offset)
    &&& forall|j: int| 0 <= j < data[offset + 1] ==> #[trigger] seg_target(data, offset, j) + 2 <= data.len()
}

/// `t` is the target of a transition of the state at `o`.
pub open spec fn seg_edge(data: Seq<u8>, o: int, t: int) -> bool {
    &&& seg_table_fits(data, o)
    &&& exists|j: int| 0 <= j < data[o + 1] && #[trigger] seg_target(data, o, j) == t
}

/// A path of states from the initial one, each a target of the one before.
pub open spec fn seg_path(data: Seq<u8>, p: Seq<int>) -> bool {
    &&& p.len() > 0
    &&& p[0] == 0
    &&& forall|k: int| 0 <= k < p.len() - 1 ==> #[trigger] seg_edge(data, p[k], p[k + 1])
}

/// The state at `o` can be reached from the initial state.
pub open spec fn seg_reachable(data: Seq<u8>, o: int) -> bool {
    exists|p: Seq<int>| #[trigger] seg_path(data, p) && p.last() == o
}

/// Every state reachable from the initial one is well placed.
pub open spec fn seg_states_ok(data: Seq<u8>) -> bool {
    forall|o: int| #[trigger] seg_reachable(data, o) ==> seg_state_ok(data, o)
}

proof fn lemma_seg_initial_reachable(data: Seq<u8>)
    ensures
        seg_reachable(data, 0),
{
    let p = seq![0int];
    assert(seg_path(data, p));
}

proof fn lemma_seg_reach_step(data: Seq<u8>, o: int, t: int)
    requires
        seg_reachable(data, o),
        seg_edge(data, o, t),
    ensures
        seg_reachable(data, t),
{
    let p = choose|p: Seq<int>| #[trigger] seg_path(data, p) && p.last() == o;
    let q = p.push(t);
    assert forall|k: int| 0 <= k < q.len() - 1 implies #[trigger] seg_edge(data, q[k], q[k + 1]) by {
        if k < p.len() - 1 {
            assert(q[k] == p[k] && q[k + 1] == p[k + 1]);
            assert(seg_edge(data, p[k], p[k + 1]));
        } else {
            assert(q[k] == o && q[k + 1] == t);
        }
    }
    assert(seg_path(data, q));
    assert(q.last() == t);
}

proof fn lemma_seg_closed_reaches(data: Seq<u8>, visited: Set<int>, p: Seq<int>)
    requires
        seg_path(data, p),
        visited.contains(0),
        forall|v: int, t: int| visited.contains(v) && #[trigger] seg_edge(data, v, t) ==> visited.contains(t),
    ensures
        visited.contains(p.last()),
    decreases p.len(),
{
    if p.len() > 1 {
        let q = p.drop_last();
        assert forall|k: int| 0 <= k < q.len() - 1 implies #[trigger] seg_edge(data, q[k], q[k + 1]) by {
            assert(seg_edge(data, p[k], p[k + 1]));
        }
        assert(seg_path(data, q));
        lemma_seg_closed_reaches(data, visited, q);
        let k = p.len() - 2;
        assert(seg_edge(data, p[k], p[k + 1]));
        assert(q.last() == p[k]);
    }
}

/// Checks every state reachable from the initial one: its transition table
/// and the start of each target lie within the data.
pub fn validate_reachable_segmentation_states(data: &[u8]) -> (r: Result<()>)
    ensures
        r is Ok <==> data@.len() < usize::MAX && seg_states_ok(data@),
        r is Ok ==> seg_table_fits(data@, 0),
        r matches Err(e) ==> e is InvalidDictionary,
{
    let ghost d = data@;
    let n = data.len();
    proof {
        lemma_seg_initial_reachable(d);
    }
    if n == usize::MAX {
        return Err(dict_error("segmentation FSA is too large", ""));
    }
    let mut seen: Vec<bool> = Vec::new();
    let mut k: usize = 0;
    while k <= n
        invariant
            k <= n + 1,
            n < usize::MAX,
            seen@.len() == k,
            forall|j: int| 0 <= j < k ==> !seen@[j],
        decreases n + 1 - k,
    {
        seen.push(false);
        k = k + 1;
    }
    let ghost visited: Set<int> = Set::empty();
    let mut stack: Vec<usize> = Vec::new();
    stack.push(0);
    let mut first_done = false;
    proof {
        lemma_int_range(0, seen@.len() as int);
    }
    loop
        invariant
            d == data@,
            seen@.len() == n + 1,
            n == data@.len(),
            n < usize::MAX,
            visited.finite(),
            visited.subset_of(set_int_range(0, seen@.len() as int)),
            forall|j: int| 0 <= j < seen@.len() ==> (seen@[j] <==> visited.contains(j)),
            set_int_range(0, seen@.len() as int).len() == seen@.len(),
            set_int_range(0, seen@.len() as int).finite(),
            !first_done ==> stack@ == seq![0usize],
            first_done ==> visited.contains(0),
            !first_done ==> visited == Set::<int>::empty(),
            forall|v: int| #[trigger] visited.contains(v) ==> seg_reachable(d, v) && seg_state_ok(d, v),
            forall|i: int| 0 <= i < stack@.len() ==> seg_reachable(d, #[trigger] stack@[i] as int),
            forall|v: int, t: int| visited.contains(v) && #[trigger] seg_edge(d, v, t)
                ==> visited.contains(t) || stack@.contains(t as usize),
        decreases seen@.len() - visited.len(), stack@.len(),
    {
        proof {
            lemma_len_subset(visited, set_int_range(0, seen@.len() as int));
        }
        let ghost before_stack = stack@;
        let offset = match stack.pop() {
            Some(o) => o,
            None => {
                proof {
                    assert forall|v: int, t: int| visited.contains(v) && #[trigger] seg_edge(d, v, t)
                        implies visited.contains(t) by {
                        assert(!stack@.contains(t as usize));
                        if seg_edge(d, v, t) {
                            let j = choose|j: int| 0 <= j < d[v + 1] && #[trigger] seg_target(d, v, j) == t;
                            assert(t >= 0);
                        }
                    }
                    assert forall|o: int| #[trigger] seg_reachable(d, o) implies seg_state_ok(d, o) by {
                        let p = choose|p: Seq<int>| #[trigger] seg_path(d, p) && p.last() == o;
                        lemma_seg_closed_reaches(d, visited, p);
                    }
                }
                return Ok(());
            },
        };
        proof {
            assert(before_stack == stack@.push(offset));
            assert(seg_reachable(d, offset as int)) by {
                assert(before_stack[before_stack.len() - 1] == offset);
            }
            assert forall|i: int| 0 <= i < stack@.len() implies seg_reachable(d, #[trigger] stack@[i] as int) by {
                assert(stack@[i] == before_stack[i]);
            }
        }
        if offset >= seen.len() {
            return Err(truncated_at("segmentation FSA state", offset, 2, data.len()));
        }
        if seen[offset] {
            proof {
                if !first_done {
                    assert(visited.contains(offset as int));
                    assert(false);
                }
                assert forall|v: int, t: int| visited.contains(v) && #[trigger] seg_edge(d, v, t)
                    implies visited.contains(t) || stack@.contains(t as usize) by {
                    if !visited.contains(t) {
                        assert(before_stack.contains(t as usize));
                        let i = choose|i: int| 0 <= i < before_stack.len() && before_stack[i] == t as usize;
                        if i < stack@.len() {
                            assert(stack@[i] == t as usize);
                        } else {
                            assert(t as usize == offset);
                            if seg_edge(d, v, t) {
                                let j = choose|j: int| 0 <= j < d[v + 1] && #[trigger] seg_target(d, v, j) == t;
                                assert(t >= 0);
                            }
                        }
                    }
                }
            }
            continue;
        }
        if n - offset < 2 {
            return Err(truncated_at("segmentation FSA state", offset, 2, n));
        }
        let transitions_num = data[offset + 1] as usize;
        let table_start = offset + 2;
        let table_end = checked_transition_table_end(table_start, transitions_num)?;
        validate_min_len(data, table_end, "segmentation FSA transitions")?;
        let ghost stack_start = stack@;
        let mut cursor = table_start;
        let mut i: usize = 0;
        while i < transitions_num
            invariant
                d == data@,
                i <= transitions_num,
                n == data@.len(),
                transitions_num == d[offset + 1],
                table_start == offset + 2,
                cursor == table_start + 4 * i,
                table_start + 4 * transitions_num <= n,
                seg_reachable(d, offset as int),
                seg_table_fits(d, offset as int),
                stack@.len() == stack_start.len() + i,
                forall|m: int| 0 <= m < stack_start.len() ==> #[trigger] stack@[m] == stack_start[m],
                forall|m: int| 0 <= m < i ==> #[trigger] stack@[stack_start.len() + m] as int == seg_target(d, offset as int, m),
                forall|m: int| 0 <= m < i ==> #[trigger] seg_target(d, offset as int, m) + 2 <= n,
                forall|m: int| 0 <= m < stack@.len() ==> seg_reachable(d, #[trigger] stack@[m] as int),
            decreases transitions_num - i,
        {
            let target_offset: usize = (data[cursor + 2] as usize) * 256 + data[cursor + 3] as usize;
            assert(target_offset as int == seg_target(d, offset as int, i as int));
            if n < 2 || target_offset > n - 2 {
                return Err(truncated_at("segmentation FSA target state", target_offset, 2, n));
            }
            proof {
                assert(seg_edge(d, offset as int, target_offset as int));
                lemma_seg_reach_step(d, offset as int, target_offset as int);
            }
            stack.push(target_offset);
            cursor = cursor + SEGRULES_TRANSITION_SIZE;
            i = i + 1;
        }
        seen.set(offset, true);
        proof {
            vstd::set::axiom_set_insert_len(visited, offset as int);
            assert(!visited.contains(offset as int));
            let old_visited = visited;
            visited = visited.insert(offset as int);
            assert forall|j: int| 0 <= j < seen@.len() implies (seen@[j] <==> visited.contains(j)) by {}
            assert(visited.subset_of(set_int_range(0, seen@.len() as int)));
            lemma_len_subset(visited, set_int_range(0, seen@.len() as int));
            assert(seg_state_ok(d, offset as int));
            if !first_done {
                assert(offset == 0);
            }
            assert forall|v: int, t: int| visited.contains(v) && #[trigger] seg_edge(d, v, t)
                implies visited.contains(t) || stack@.contains(t as usize) by {
                if v == offset as int {
                    let j = choose|j: int| 0 <= j < d[v + 1] && #[trigger] seg_target(d, v, j) == t;
                    assert(stack@[stack_start.len() + j] as int == t);
                } else {
                    assert(old_visited.contains(v));
                    if !old_visited.contains(t) && t != offset as int {
                        assert(before_stack.contains(t as usize));
                        let m = choose|m: int| 0 <= m < before_stack.len() && before_stack[m] == t as usize;
                        if m < stack_start.len() {
                            assert(stack@[m] == t as usize);
                        } else {
                            let j = choose|j: int| 0 <= j < d[v + 1] && #[trigger] seg_target(d, v, j) == t;
                            assert(t >= 0);
                            assert(t as usize == offset);
                        }
                    }
                }
            }
        }
        first_done = true;
    }
}

/// Key and value pairs, in the order stored.
pub type OptionPairs = Seq<(Seq<char>, Seq<char>)>;

/// `n` pairs of zero-terminated key and value strings from `c`: the pairs
/// and the offset after them.
pub open spec fn option_pairs_from(s: Seq<u8>, c: int, n: nat) -> Option<(OptionPairs, int)>
    decreases n,
{
    if n == 0 {
        Some((Seq::empty(), c))
    } else {
        match c_string_at(s, c) {
            None => None,
            Some((key, c1)) => match c_string_at(s, c1) {
                None => None,
                Some((value, c2)) => match option_pairs_from(s, c2, (n - 1) as nat) {
                    None => None,
                    Some((rest, end)) => Some((seq![(key, value)] + rest, end)),
                },
            },
        }
    }
}

/// The options stored at `c`: a count byte, then that many pairs.
pub open spec fn option_pairs_at(s: Seq<u8>, c: int) -> Option<(OptionPairs, int)> {
    if 0 <= c < s.len() {
        option_pairs_from(s, c + 1, s[c] as nat)
    } else {
        None
    }
}

/// The map the pairs make, a later pair replacing an earlier one.
pub open spec fn pairs_map(p: OptionPairs) -> Map<Seq<char>, Seq<char>>
    decreases p.len(),
{
    if p.len() == 0 {
        Map::empty()
    } else {
        let (key, value) = p.last();
        pairs_map(p.drop_last()).insert(key, value)
    }
}

/// A rule variant as stored: its options and its automaton's bytes.
pub type VariantRecord = (Map<Seq<char>, Seq<char>>, Seq<u8>);

/// `n` rule variants from `c`: each an options map, a 32-bit size and an
/// automaton of that size that loads; the variants and the offset after
/// them.
pub open spec fn variants_from(s: Seq<u8>, c: int, n: nat) -> Option<(Seq<VariantRecord>, int)>
    decreases n,
{
    if n == 0 {
        Some((Seq::empty(), c))
    } else {
        match option_pairs_at(s, c) {
            None => None,
            Some((pairs, c1)) => if c1 + 4 > s.len() {
                None
            } else {
                let start = c1 + 4;
                let end = start + be_u32(s, c1);
                if end > s.len() || !seg_rules_valid(s.subrange(start, end)) {
                    None
                } else {
                    match variants_from(s, end, (n - 1) as nat) {
                        None => None,
                        Some((rest, e)) => Some((seq![(pairs_map(pairs), s.subrange(start, end))] + rest, e)),
                    }
                }
            },
        }
    }
}

/// The segmentation section: a 16-bit separator count and 32-bit
/// separators, a variant count byte and the variants, then the default
/// options, which must end the data; the variants and the default options.
pub open spec fn metadata_records(s: Seq<u8>) -> Option<(Seq<VariantRecord>, Map<Seq<char>, Seq<char>>)> {
    if s.len() < 2 {
        None
    } else {
        let seps_end = 2 + 4 * be_u16(s, 0);
        if seps_end + 1 > s.len() {
            None
        } else {
            match variants_from(s, seps_end + 1, s[seps_end] as nat) {
                None => None,
                Some((variants, c)) => match option_pairs_at(s, c) {
                    None => None,
                    Some((pairs, end)) => if end != s.len() {
                        None
                    } else {
                        Some((variants, pairs_map(pairs)))
                    },
                },
            }
        }
    }
}

/// Reads a count byte and that many key/value pairs of zero-terminated
/// strings; a later pair with the same key replaces an earlier one.
pub fn read_options_map(data: &[u8], cursor: &mut usize) -> (r: Result<OptionsMap>)
    ensures
        r is Ok <==> option_pairs_at(data@, *old(cursor) as int) is Some,
        r matches Ok(m) ==> (option_pairs_at(data@, *old(cursor) as int) matches Some((pairs, end))
            && end == *final(cursor) && m.view() == pairs_map(pairs)),
        r matches Ok(m) ==> m.wf(),
        r is Ok ==> *final(cursor) <= data@.len(),
        r matches Err(e) ==> e is InvalidDictionary,
{
    let ghost s = data@;
    let ghost c0 = *cursor as int;
    let count = read_u8(data, cursor, "segmentation options count")? as usize;
    let mut options = OptionsMap::new();
    let ghost mut done: OptionPairs = Seq::empty();
    proof {
        assert(options.view() =~= pairs_map(done));
        if option_pairs_from(s, c0 + 1, count as nat) is Some {
            let (rest, end) = option_pairs_from(s, c0 + 1, count as nat).unwrap();
            assert(done + rest =~= rest);
        }
    }
    let mut i: usize = 0;
    while i < count
        invariant
            s == data@,
            options.wf(),
            i <= count,
            count == s[c0],
            0 <= c0 < s.len(),
            c0 == *old(cursor) as int,
            *cursor <= data@.len(),
            options.view() == pairs_map(done),
            done.len() == i,
            option_pairs_from(s, *cursor as int, (count - i) as nat) is None
                ==> option_pairs_from(s, c0 + 1, count as nat) is None,
            option_pairs_from(s, *cursor as int, (count - i) as nat) matches Some((rest, end))
                ==> option_pairs_from(s, c0 + 1, count as nat) == Some((done + rest, end)),
        decreases count - i,
    {
        let ghost at = *cursor as int;
        let key_read = read_c_string_from_slice(data, cursor, "segmentation option key");
        proof {
            if key_read is Err {
                assert(option_pairs_from(s, at, (count - i) as nat) is None);
            }
        }
        let key = key_read?;
        let ghost c1 = *cursor as int;
        proof { lemma_c_string_at(s, at, key@, c1); }
        let value_read = read_c_string_from_slice(data, cursor, "segmentation option value");
        proof {
            if value_read is Err {
                assert(option_pairs_from(s, at, (count - i) as nat) is None);
            }
        }
        let value = value_read?;
        proof { lemma_c_string_at(s, c1, value@, *cursor as int); }
        options.insert(key.as_str(), value.as_str());
        proof {
            let pair = (key@, value@);
            let next = done.push(pair);
            assert(next.drop_last() =~= done);
            assert(pairs_map(next) == pairs_map(done).insert(key@, value@));
            if option_pairs_from(s, *cursor as int, (count - i - 1) as nat) is Some {
                let (rest, end) = option_pairs_from(s, *cursor as int, (count - i - 1) as nat).unwrap();
                assert(option_pairs_from(s, at, (count - i) as nat) == Some((seq![pair] + rest, end)));
                assert(done + (seq![pair] + rest) =~= next + rest);
            }
            done = next;
        }
        i = i + 1;
    }
    proof {
        assert(option_pairs_from(s, *cursor as int, 0) == Some((Seq::<(Seq<char>, Seq<char>)>::empty(), *cursor as int)));
        assert(done + Seq::<(Seq<char>, Seq<char>)>::empty() =~= done);
    }
    Ok(options)
}

/// A copy of `data[start..end]`.
fn copy_range(data: &[u8], start: usize, end: usize) -> (r: Vec<u8>)
    requires
        start <= end <= data@.len(),
    ensures
        r@ == data@.subrange(start as int, end as int),
{
    let mut out: Vec<u8> = Vec::new();
    let mut k: usize = start;
    while k < end
        invariant
            start <= k <= end <= data@.len(),
            out@ == data@.subrange(start as int, k as int),
        decreases end - k,
    {
        out.push(data[k]);
        k = k + 1;
        assert(out@ =~= data@.subrange(start as int, k as int));
    }
    out
}

/// The section holds what the bytes say: the separators, the rule variants
/// and the default options.
pub open spec fn metadata_parsed(m: SegmentationMetadata, data: Seq<u8>) -> bool {
    &&& m.wf()
    &&& m.separators@.len() == be_u16(data, 0)
    &&& forall|i: int| 0 <= i < m.separators@.len() ==> #[trigger] m.separators@[i] == be_u32(data, 2 + 4 * i)
    &&& forall|i: int| 0 <= i < m.fsa_variants@.len() ==> seg_table_fits((#[trigger] m.fsa_variants@[i]).fsa@, 0)
    &&& metadata_records(data) matches Some((variants, defaults))
        && m.fsa_variants@.map_values(|v: SegmentationFsaVariant| variant_record_of(v)) == variants
        && m.default_options.view() == defaults
}

/// What a parsed rule variant holds: its options and its automaton.
pub open spec fn variant_record_of(v: SegmentationFsaVariant) -> VariantRecord {
    (v.options.view(), v.fsa@)
}

/// Parses the segmentation section: the separators (a 16-bit count and
/// 32-bit code points), the rule automata with their options, and the
/// default options, which must end the section. Every failure is
/// `InvalidDictionary`.
pub fn parse_segmentation_metadata(data: &[u8]) -> (r: Result<SegmentationMetadata>)
    ensures
        r is Ok <==> metadata_records(data@) is Some,
        r matches Ok(m) ==> metadata_parsed(m, data@),
        r matches Err(e) ==> e is InvalidDictionary,
{
    let ghost s = data@;
    let mut cursor: usize = 0;
    let separators_count = read_u16(data, &mut cursor, "separators count")? as usize;
    let mut separators: Vec<u32> = Vec::new();
    let mut i: usize = 0;
    while i < separators_count
        invariant
            s == data@,
            s.len() >= 2,
            i <= separators_count,
            separators_count == be_u16(data@, 0),
            cursor == 2 + 4 * i,
            separators@.len() == i,
            forall|j: int| 0 <= j < i ==> #[trigger] separators@[j] == be_u32(data@, 2 + 4 * j),
        decreases separators_count - i,
    {
        let read = read_u32(data, &mut cursor, "separator codepoint");
        proof {
            if read is Err {
                assert(2 + 4 * be_u16(s, 0) + 1 > s.len());
                assert(metadata_records(s) is None);
            }
        }
        let sep = read?;
        separators.push(sep);
        i = i + 1;
    }
    let ghost seps_end = cursor as int;
    let count_read = read_u8(data, &mut cursor, "segmentation FSA variants count");
    proof {
        if count_read is Err {
            assert(metadata_records(s) is None);
        }
    }
    let variants_count = count_read? as usize;
    let ghost c_v0 = cursor as int;
    let ghost total = variants_from(s, c_v0, variants_count as nat);
    let data_len = data.len();
    proof {
        assert(seps_end == 2 + 4 * be_u16(s, 0));
        assert(variants_count == s[seps_end]);
        assert(c_v0 == seps_end + 1);
        assert(total is None ==> metadata_records(s) is None);
        if total is Some {
            let (vs, e) = total.unwrap();
            assert(metadata_records(s) == match option_pairs_at(s, e) {
                None => None,
                Some((pairs, end)) => if end != s.len() { None } else { Some((vs, pairs_map(pairs))) },
            });
        }
    }
    let mut fsa_variants: Vec<SegmentationFsaVariant> = Vec::new();
    proof {
        if total is Some {
            let (rest, e) = total.unwrap();
            assert(Seq::<VariantRecord>::empty() + rest =~= rest);
            assert(fsa_variants@.map_values(|v: SegmentationFsaVariant| variant_record_of(v)) =~= Seq::<VariantRecord>::empty());
        }
    }
    let mut v: usize = 0;
    while v < variants_count
        invariant
            s == data@,
            v <= variants_count,
            fsa_variants@.len() == v,
            total == variants_from(s, c_v0, variants_count as nat),
            total is None ==> metadata_records(s) is None,
            total matches Some((vs, e)) ==> metadata_records(s) == match option_pairs_at(s, e) {
                None => None,
                Some((pairs, end)) => if end != s.len() { None } else { Some((vs, pairs_map(pairs))) },
            },
            data_len == s.len(),
            forall|j: int| 0 <= j < fsa_variants@.len() ==> (#[trigger] fsa_variants@[j]).options.wf(),
            forall|j: int| 0 <= j < fsa_variants@.len() ==> seg_table_fits((#[trigger] fsa_variants@[j]).fsa@, 0),
            cursor <= s.len(),
            variants_from(s, cursor as int, (variants_count - v) as nat) is None ==> total is None,
            variants_from(s, cursor as int, (variants_count - v) as nat) matches Some((rest, e))
                ==> total == Some((fsa_variants@.map_values(|x: SegmentationFsaVariant| variant_record_of(x)) + rest, e)),
        decreases variants_count - v,
    {
        let ghost at = cursor as int;
        let ghost k = (variants_count - v) as nat;
        let options_read = read_options_map(data, &mut cursor);
        proof {
            if options_read is Err {
                assert(variants_from(s, at, k) is None);
            }
        }
        let options = options_read?;
        let ghost c1 = cursor as int;
        let size_read = read_u32(data, &mut cursor, "segmentation FSA size");
        proof {
            if size_read is Err {
                assert(variants_from(s, at, k) is None);
            }
        }
        let fsa_size = size_read? as usize;
        if fsa_size > usize::MAX - cursor {
            proof {
                assert(variants_from(s, at, k) is None);
            }
            return Err(dict_error("segmentation FSA size overflow", ""));
        }
        let end = cursor + fsa_size;
        let length_ok = validate_min_len(data, end, "segmentation FSA data");
        proof {
            if length_ok is Err {
                assert(variants_from(s, at, k) is None);
            }
        }
        length_ok?;
        let fsa = copy_range(data, cursor, end);
        let checked = SegmentationRulesFsa::new(fsa.as_slice());
        match checked {
            Ok(_) => {},
            Err(e) => {
                proof {
                    assert(variants_from(s, at, k) is None);
                }
                return Err(e);
            },
        }
        let ghost done = fsa_variants@.map_values(|x: SegmentationFsaVariant| variant_record_of(x));
        let item = SegmentationFsaVariant { options, fsa };
        let ghost record = variant_record_of(item);
        fsa_variants.push(item);
        cursor = end;
        v = v + 1;
        proof {
            let now = fsa_variants@.map_values(|x: SegmentationFsaVariant| variant_record_of(x));
            assert(now =~= done.push(record));
            if variants_from(s, cursor as int, (variants_count - v) as nat) is Some {
                let (rest, e) = variants_from(s, cursor as int, (variants_count - v) as nat).unwrap();
                assert(variants_from(s, at, k) == Some((seq![record] + rest, e)));
                assert(done + (seq![record] + rest) =~= now + rest);
            }
        }
    }
    proof {
        assert(variants_from(s, cursor as int, 0) == Some((Seq::<VariantRecord>::empty(), cursor as int)));
        assert(fsa_variants@.map_values(|x: SegmentationFsaVariant| variant_record_of(x)) + Seq::<VariantRecord>::empty()
            =~= fsa_variants@.map_values(|x: SegmentationFsaVariant| variant_record_of(x)));
        assert(total == Some((fsa_variants@.map_values(|x: SegmentationFsaVariant| variant_record_of(x)), cursor as int)));
    }
    let default_options = read_options_map(data, &mut cursor)?;
    if cursor != data.len() {
        return Err(dict_error_num("trailing segmentation metadata bytes: ", (data.len() - cursor) as u64, ""));
    }
    Ok(SegmentationMetadata { separators, fsa_variants, default_options })
}

} // verus!
