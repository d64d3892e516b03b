//! The three encodings of the dictionary automaton (Simple, VLength1 and
//! VLength2) and the lookups made with them: recognizing a whole input and
//! listing the accepted prefixes of an input.
use vstd::prelude::*;
use vstd::set_lib::*;
use crate::error::{Error, Result};
use super::read::{
    be_u24, dict_error, morph_payload_fits, morph_payload_ok, read_morph_payload,
    read_u24_at, read_vlength1_offset_at, read_vlength2_offset, truncated, truncated_at, v1_offset,
    v2_offset, validate_min_len,
};
use super::{
    SIMPLE_ACCEPTING_FLAG, SIMPLE_TRANSITIONS_NUM_MASK, SIMPLE_TRANSITION_SIZE,
    SIMPLE_TRANSDUCER_TRANSITION_SIZE, V1_ACCEPTING_FLAG, V1_INITIAL_STATE_OFFSET,
    V1_OFFSET_SIZE_MASK, V1_TRANSITIONS_NUM_MASK, V2_ACCEPTING_FLAG, V2_LAST_FLAG,
};

verus! {

/// A whole-input match: the offset of the accepting state and its payload.
#[derive(Debug, Clone, Copy, PartialEq, Eq)]
pub struct RawFsaMatch<'a> {
    pub state_offset: usize,
    pub value: &'a [u8],
}

/// An accepted prefix `input[..input_end]` with its state and payload.
#[derive(Debug, Clone, Copy, PartialEq, Eq)]
pub struct RawFsaPrefixMatch<'a> {
    pub input_end: usize,
    pub state_offset: usize,
    pub value: &'a [u8],
}

/// A state of the automaton as the lookups see it.
pub struct FsaStateSpec {
    pub offset: int,
    pub accepting: bool,
    pub value: Seq<u8>,
    pub record: int,
    pub tn: int,
    pub to: int,
}

#[derive(Debug, Clone, Copy)]
pub struct RawFsaState<'a> {
    pub offset: usize,
    pub accepting: bool,
    pub value: Option<&'a [u8]>,
    pub value_record_size: usize,
    pub transitions_num: usize,
    pub transitions_offset: usize,
}

impl<'a> RawFsaState<'a> {
    pub open spec fn view(&self) -> FsaStateSpec {
        FsaStateSpec {
            offset: self.offset as int,
            accepting: self.accepting,
            value: match self.value {
                Some(v) => v@,
                None => Seq::empty(),
            },
            record: self.value_record_size as int,
            tn: self.transitions_num as int,
            to: self.transitions_offset as int,
        }
    }

    pub fn initial() -> (s: Self)
        ensures
            s.view() == initial_state_spec(),
    {
        RawFsaState {
            offset: 0,
            accepting: false,
            value: None,
            value_record_size: 0,
            transitions_num: 0,
            transitions_offset: 0,
        }
    }

    fn payload(&self) -> (v: &'a [u8])
        ensures
            v@ == self.view().value,
    {
        match self.value {
            Some(v) => v,
            None => {
                let e: &[u8] = &[];
                assert(e@ =~= Seq::<u8>::empty());
                e
            },
        }
    }
}

pub open spec fn initial_state_spec() -> FsaStateSpec {
    FsaStateSpec { offset: 0, accepting: false, value: Seq::empty(), record: 0, tn: 0, to: 0 }
}

pub open spec fn plain_state(offset: int) -> FsaStateSpec {
    FsaStateSpec { offset, accepting: false, value: Seq::empty(), record: 0, tn: 0, to: 0 }
}

pub open spec fn payload_of(d: Seq<u8>, off: int) -> Seq<u8> {
    d.subrange(off + 2, off + 2 + super::read::be_u16(d, off))
}

pub open spec fn record_of(d: Seq<u8>, off: int) -> int {
    super::read::be_u16(d, off) + 2
}

// ---------------------------------------------------------------- Simple

/// The Simple-encoding state at `off` as a lookup reaches it.
pub open spec fn simple_state_at(d: Seq<u8>, off: int) -> Option<FsaStateSpec> {
    if off < 0 || off + 1 > d.len() {
        None
    } else if d[off] & 128 != 0 {
        if morph_payload_fits(d, off + 1) {
            Some(FsaStateSpec { offset: off, accepting: true, value: payload_of(d, off + 1),
                record: record_of(d, off + 1), tn: 0, to: 0 })
        } else {
            None
        }
    } else {
        Some(plain_state(off))
    }
}

/// Where the transition table of the Simple state at `off` starts.
pub open spec fn simple_table_start(d: Seq<u8>, off: int) -> int {
    if d[off] & 128 != 0 { off + 1 + record_of(d, off + 1) } else { off + 1 }
}

/// The first of the `tn` transitions from `i` on whose label is `byte`.
pub open spec fn simple_scan(d: Seq<u8>, to: int, tsize: int, tn: int, byte: u8, i: int) -> Option<int>
    decreases tn - i,
{
    if i >= tn || i < 0 {
        None
    } else if d[to + i * tsize] == byte {
        Some(i)
    } else {
        simple_scan(d, to, tsize, tn, byte, i + 1)
    }
}

/// One Simple transition on `byte`: `None` for malformed data, `Some(None)`
/// when no transition carries the byte.
pub open spec fn simple_step(d: Seq<u8>, tsize: int, st: FsaStateSpec, byte: u8) -> Option<Option<FsaStateSpec>> {
    let off = st.offset;
    if off < 0 || off + 1 > d.len() {
        None
    } else if d[off] & 128 != 0 && !morph_payload_fits(d, off + 1) {
        None
    } else {
        let to = simple_table_start(d, off);
        let tn = (d[off] & 127) as int;
        if to + tn * tsize > d.len() {
            None
        } else {
            match simple_scan(d, to, tsize, tn, byte, 0) {
                None => Some(None),
                Some(i) => match simple_state_at(d, be_u24(d, to + i * tsize + 1)) {
                    None => None,
                    Some(s) => Some(Some(s)),
                },
            }
        }
    }
}

// ---------------------------------------------------------------- VLength1

/// The VLength1 state whose header is at data offset `off`.
pub open spec fn v1_state_at(d: Seq<u8>, off: int) -> Option<FsaStateSpec> {
    if off < 257 || off + 1 > d.len() {
        None
    } else {
        let first = d[off];
        let ext = (first & 127) == 127;
        if ext && off + 2 > d.len() {
            None
        } else {
            let tn = if ext { d[off + 1] as int } else { (first & 127) as int };
            let c = if ext { off + 2 } else { off + 1 };
            if first & 128 != 0 {
                if morph_payload_fits(d, c) {
                    Some(FsaStateSpec { offset: off - 257, accepting: true, value: payload_of(d, c),
                        record: record_of(d, c), tn, to: c + record_of(d, c) })
                } else {
                    None
                }
            } else {
                Some(FsaStateSpec { offset: off - 257, accepting: false, value: Seq::empty(),
                    record: 0, tn, to: c })
            }
        }
    }
}

/// VLength1 transitions `i..tn` laid out from `cursor` are whole: each has
/// its flag byte, a label byte where the flag carries no label, and an
/// offset whose target lies at or after the initial state, inside the data.
pub open spec fn v1_transitions_ok(d: Seq<u8>, tn: int, i: int, cursor: int) -> bool
    decreases tn - i,
{
    if i >= tn {
        true
    } else if !(0 <= cursor < d.len()) {
        false
    } else {
        let first = d[cursor];
        let c = if first >> 2u8 == 0 { cursor + 2 } else { cursor + 1 };
        let size = (first & 3u8) as int;
        &&& (first >> 2u8 == 0 ==> cursor + 1 < d.len())
        &&& c + size <= d.len()
        &&& 257 <= c + size + v1_offset(d, c, size) < d.len()
        &&& v1_transitions_ok(d, tn, i + 1, c + size)
    }
}

/// The initial state of VLength1 data can be read and its transitions are
/// whole.
pub open spec fn v1_initial_state_ok(d: Seq<u8>) -> bool {
    v1_state_at(d, 257) matches Some(s) && v1_transitions_ok(d, s.tn, 0, s.to)
}

/// Scans VLength1 transitions `i..tn` from `cursor` for `byte`; the target
/// data offset of the first that matches.
pub open spec fn v1_scan(d: Seq<u8>, tn: int, byte: u8, i: int, cursor: int) -> Option<Option<int>>
    decreases tn - i,
{
    if i >= tn {
        Some(None)
    } else if cursor < 0 || cursor + 1 > d.len() || d.len() < 256 {
        None
    } else {
        let isl = d[byte as int];
        let first = d[cursor];
        let size = (first & 3) as int;
        let tsl = first >> 2;
        let c = cursor + 1;
        if tsl == 0 && c + 1 > d.len() {
            None
        } else {
            let m = if tsl == 0 { isl == 0 && d[c] == byte } else { tsl == isl };
            let c1 = if tsl == 0 { c + 1 } else { c };
            if c1 + size > d.len() {
                None
            } else if m {
                Some(Some(c1 + size + v1_offset(d, c1, size)))
            } else {
                v1_scan(d, tn, byte, i + 1, c1 + size)
            }
        }
    }
}

pub open spec fn v1_step(d: Seq<u8>, st: FsaStateSpec, byte: u8) -> Option<Option<FsaStateSpec>> {
    match v1_scan(d, st.tn, byte, 0, st.to) {
        None => None,
        Some(None) => Some(None),
        Some(Some(t)) => match v1_state_at(d, t) {
            None => None,
            Some(s) => Some(Some(s)),
        },
    }
}

// ---------------------------------------------------------------- VLength2

/// The VLength2 state entered at `off` through a transition with `flags`.
pub open spec fn v2_target(d: Seq<u8>, off: int, flags: u8) -> Option<FsaStateSpec> {
    if flags & 64 == 0 {
        Some(plain_state(off))
    } else if morph_payload_fits(d, off) {
        Some(FsaStateSpec { offset: off, accepting: true, value: payload_of(d, off),
            record: record_of(d, off), tn: 0, to: 0 })
    } else {
        None
    }
}

/// Scans the VLength2 transitions starting at `cursor` for `byte`.
pub open spec fn v2_scan(d: Seq<u8>, cursor: int, byte: u8) -> Option<Option<FsaStateSpec>>
    decreases d.len() - cursor,
{
    if cursor < 0 || cursor + 1 > d.len() {
        None
    } else {
        let label = d[cursor];
        let c = cursor + 1;
        if c >= d.len() && label & 32 != 0 {
            Some(None)
        } else if c + 1 > d.len() {
            None
        } else {
            let flags = d[c];
            if label == byte {
                match v2_offset(d, c) {
                    None => None,
                    Some((rel, c2)) => if c2 + rel > d.len() {
                        None
                    } else {
                        match v2_target(d, c2 + rel, flags) {
                            None => None,
                            Some(s) => Some(Some(s)),
                        }
                    },
                }
            } else if flags & 32 != 0 {
                Some(None)
            } else {
                match v2_offset(d, c) {
                    None => None,
                    Some((_, c2)) => if cursor < c2 <= d.len() { v2_scan(d, c2, byte) } else { None },
                }
            }
        }
    }
}

pub open spec fn v2_step(d: Seq<u8>, st: FsaStateSpec, byte: u8) -> Option<Option<FsaStateSpec>> {
    v2_scan(d, st.offset + st.record, byte)
}

// ---------------------------------------------------------------- runs

/// Which encoding a spec-level lookup follows: 0 Simple, 1 VLength1,
/// 2 VLength2; `tsize` is the Simple transition size.
pub open spec fn fsa_step(kind: int, tsize: int, d: Seq<u8>, st: FsaStateSpec, byte: u8) -> Option<Option<FsaStateSpec>> {
    if kind == 0 {
        simple_step(d, tsize, st, byte)
    } else if kind == 1 {
        v1_step(d, st, byte)
    } else {
        v2_step(d, st, byte)
    }
}

/// Follows the whole input from `st`: `None` for malformed data,
/// `Some(None)` when some byte has no transition, otherwise the state reached.
pub open spec fn fsa_run(kind: int, tsize: int, d: Seq<u8>, st: FsaStateSpec, input: Seq<u8>) -> Option<Option<FsaStateSpec>>
    decreases input.len(),
{
    if input.len() == 0 {
        Some(Some(st))
    } else {
        match fsa_step(kind, tsize, d, st, input[0]) {
            None => None,
            Some(None) => Some(None),
            Some(Some(n)) => fsa_run(kind, tsize, d, n, input.drop_first()),
        }
    }
}

/// What recognizing `input` from `st` yields: `None` for malformed data,
/// `Some(None)` when the input is not accepted, otherwise the accepting
/// state's offset and payload.
pub open spec fn fsa_recognize(kind: int, tsize: int, d: Seq<u8>, st: FsaStateSpec, input: Seq<u8>) -> Option<Option<(int, Seq<u8>)>> {
    match fsa_run(kind, tsize, d, st, input) {
        None => None,
        Some(None) => Some(None),
        Some(Some(s)) => if s.accepting { Some(Some((s.offset, s.value))) } else { Some(None) },
    }
}

/// The accepted prefixes of `input` met while following it from `st`, with
/// the input offset `base` added to each end; the walk stops at the first
/// byte without a transition. `None` for malformed data.
pub open spec fn fsa_prefixes(kind: int, tsize: int, d: Seq<u8>, st: FsaStateSpec, input: Seq<u8>, base: int) -> Option<Seq<(int, int, Seq<u8>)>>
    decreases input.len(),
{
    if input.len() == 0 {
        Some(Seq::empty())
    } else {
        match fsa_step(kind, tsize, d, st, input[0]) {
            None => None,
            Some(None) => Some(Seq::empty()),
            Some(Some(n)) => match fsa_prefixes(kind, tsize, d, n, input.drop_first(), base + 1) {
                None => None,
                Some(rest) => if n.accepting {
                    Some(seq![(base + 1, n.offset, n.value)] + rest)
                } else {
                    Some(rest)
                },
            },
        }
    }
}

/// Prefix lookup agrees with recognition: each prefix it reports ends
/// within the input and is recognized with the same state and payload, the
/// reported ends strictly increase, and each accepted non-empty prefix of
/// the input is reported.
pub proof fn law_prefixes_are_recognized(kind: int, tsize: int, d: Seq<u8>, st: FsaStateSpec, input: Seq<u8>, base: int)
    requires
        fsa_prefixes(kind, tsize, d, st, input, base) is Some,
    ensures
        forall|j: int| 0 <= j < fsa_prefixes(kind, tsize, d, st, input, base).unwrap().len() ==> {
            let p = #[trigger] fsa_prefixes(kind, tsize, d, st, input, base).unwrap()[j];
            &&& base < p.0 <= base + input.len()
            &&& fsa_recognize(kind, tsize, d, st, input.take(p.0 - base)) == Some(Some((p.1, p.2)))
        },
        forall|j: int, k: int| 0 <= j < k < fsa_prefixes(kind, tsize, d, st, input, base).unwrap().len()
            ==> (#[trigger] fsa_prefixes(kind, tsize, d, st, input, base).unwrap()[j]).0
                < (#[trigger] fsa_prefixes(kind, tsize, d, st, input, base).unwrap()[k]).0,
        forall|k: int| 1 <= k <= input.len() && (#[trigger] fsa_recognize(kind, tsize, d, st, input.take(k))) is Some
            && fsa_recognize(kind, tsize, d, st, input.take(k)).unwrap() is Some ==> fsa_prefixes(kind, tsize, d, st, input, base).unwrap().contains(
                (base + k, fsa_recognize(kind, tsize, d, st, input.take(k)).unwrap().unwrap().0,
                fsa_recognize(kind, tsize, d, st, input.take(k)).unwrap().unwrap().1)),
    decreases input.len(),
{
    let ps = fsa_prefixes(kind, tsize, d, st, input, base).unwrap();
    if input.len() > 0 {
        match fsa_step(kind, tsize, d, st, input[0]) {
            None => {},
            Some(None) => {
                assert forall|k: int| 1 <= k <= input.len() implies !(fsa_recognize(kind, tsize, d, st, #[trigger] input.take(k)) matches Some(Some(_))) by {
                    assert(input.take(k)[0] == input[0]);
                }
            },
            Some(Some(n)) => {
                let tail = input.drop_first();
                law_prefixes_are_recognized(kind, tsize, d, n, tail, base + 1);
                let rest = fsa_prefixes(kind, tsize, d, n, tail, base + 1).unwrap();
                assert forall|k: int| 1 <= k <= input.len() implies fsa_recognize(kind, tsize, d, st, #[trigger] input.take(k))
                    == fsa_recognize(kind, tsize, d, n, tail.take(k - 1)) by {
                    assert(input.take(k)[0] == input[0]);
                    assert(input.take(k).drop_first() =~= tail.take(k - 1));
                    assert(tail.take(0) =~= Seq::<u8>::empty());
                }
                assert forall|j: int| 0 <= j < ps.len() implies {
                    let p = #[trigger] ps[j];
                    &&& base < p.0 <= base + input.len()
                    &&& fsa_recognize(kind, tsize, d, st, input.take(p.0 - base)) == Some(Some((p.1, p.2)))
                } by {
                    if n.accepting {
                        if j == 0 {
                            assert(ps[0] == (base + 1, n.offset, n.value));
                            assert(fsa_recognize(kind, tsize, d, st, input.take(1)) == fsa_recognize(kind, tsize, d, n, tail.take(0)));
                            assert(tail.take(0) =~= Seq::<u8>::empty());
                        } else {
                            assert(ps[j] == rest[j - 1]);
                        }
                    } else {
                        assert(ps[j] == rest[j]);
                    }
                }
                assert forall|j: int, k: int| 0 <= j < k < ps.len() implies (#[trigger] ps[j]).0 < (#[trigger] ps[k]).0 by {
                    if n.accepting {
                        assert(ps[k] == rest[k - 1]);
                        if j > 0 {
                            assert(ps[j] == rest[j - 1]);
                        } else {
                            assert(base + 1 < rest[k - 1].0);
                        }
                    } else {
                        assert(ps[j] == rest[j] && ps[k] == rest[k]);
                    }
                }
                assert forall|k: int| 1 <= k <= input.len() && (#[trigger] fsa_recognize(kind, tsize, d, st, input.take(k))) is Some
                    && fsa_recognize(kind, tsize, d, st, input.take(k)).unwrap() is Some implies ps.contains(
                        (base + k, fsa_recognize(kind, tsize, d, st, input.take(k)).unwrap().unwrap().0,
                        fsa_recognize(kind, tsize, d, st, input.take(k)).unwrap().unwrap().1)) by {
                    let x = fsa_recognize(kind, tsize, d, st, input.take(k)).unwrap().unwrap();
                    if k == 1 {
                        assert(tail.take(0) =~= Seq::<u8>::empty());
                        assert(n.accepting && x == (n.offset, n.value));
                        assert(ps[0] == (base + 1, n.offset, n.value));
                    } else {
                        assert(fsa_recognize(kind, tsize, d, n, tail.take(k - 1)) == Some(Some(x)));
                        assert(rest.contains((base + 1 + (k - 1), x.0, x.1)));
                        let w = choose|w: int| 0 <= w < rest.len() && rest[w] == (base + 1 + (k - 1), x.0, x.1);
                        if n.accepting {
                            assert(ps[w + 1] == rest[w]);
                        } else {
                            assert(ps[w] == rest[w]);
                        }
                    }
                }
            },
        }
    }
}

pub open spec fn match_view(m: RawFsaMatch) -> (int, Seq<u8>) {
    (m.state_offset as int, m.value@)
}

pub open spec fn prefix_view(m: RawFsaPrefixMatch) -> (int, int, Seq<u8>) {
    (m.input_end as int, m.state_offset as int, m.value@)
}

pub open spec fn recognize_result_ok(r: Result<Option<RawFsaMatch>>, spec: Option<Option<(int, Seq<u8>)>>) -> bool {
    &&& (r is Ok <==> spec is Some)
    &&& r matches Ok(o) ==> match o {
        None => spec == Some(None::<(int, Seq<u8>)>),
        Some(m) => spec == Some(Some(match_view(m))),
    }
    &&& r matches Err(e) ==> e is InvalidDictionary
}

pub open spec fn prefixes_result_ok(r: Result<Vec<RawFsaPrefixMatch>>, spec: Option<Seq<(int, int, Seq<u8>)>>) -> bool {
    &&& (r is Ok <==> spec is Some)
    &&& r matches Ok(v) ==> spec == Some(v@.map_values(|m: RawFsaPrefixMatch| prefix_view(m)))
    &&& r matches Err(e) ==> e is InvalidDictionary
}

// ---------------------------------------------------------------- exec steps

fn simple_state_at_exec<'a>(data: &'a [u8], offset: usize) -> (r: Result<RawFsaState<'a>>)
    ensures
        r is Ok <==> simple_state_at(data@, offset as int) is Some,
        r matches Ok(s) ==> Some(s.view()) == simple_state_at(data@, offset as int),
        r matches Err(e) ==> e is InvalidDictionary,
{
    if offset >= data.len() {
        return Err(truncated_at("Simple FSA state header", offset, 1, data.len()));
    }
    let first = data[offset];
    if first & SIMPLE_ACCEPTING_FLAG != 0 {
        let (payload, size) = read_morph_payload(data, offset + 1)?;
        Ok(RawFsaState {
            offset,
            accepting: true,
            value: Some(payload),
            value_record_size: size,
            transitions_num: 0,
            transitions_offset: 0,
        })
    } else {
        let s = RawFsaState {
            offset,
            accepting: false,
            value: None,
            value_record_size: 0,
            transitions_num: 0,
            transitions_offset: 0,
        };
        assert(s.view() == plain_state(offset as int));
        Ok(s)
    }
}

fn simple_proceed<'a>(data: &'a [u8], tsize: usize, state: RawFsaState<'a>, byte: u8) -> (r: Result<Option<RawFsaState<'a>>>)
    requires
        tsize == 4 || tsize == 5,
    ensures
        r is Ok <==> simple_step(data@, tsize as int, state.view(), byte) is Some,
        r matches Ok(o) ==> simple_step(data@, tsize as int, state.view(), byte) == Some(
            match o { Some(n) => Some(n.view()), None => None::<FsaStateSpec> },
        ),
        r matches Err(e) ==> e is InvalidDictionary,
{
    let offset = state.offset;
    if offset >= data.len() {
        return Err(truncated_at("Simple FSA state header", offset, 1, data.len()));
    }
    let first = data[offset];
    let mut to = offset + 1;
    if first & SIMPLE_ACCEPTING_FLAG != 0 {
        let (_payload, size) = read_morph_payload(data, offset + 1)?;
        to = to + size;
    }
    let tn = (first & SIMPLE_TRANSITIONS_NUM_MASK) as usize;
    assert(to as int == simple_table_start(data@, offset as int));
    if to > data.len() || (data.len() - to) / tsize < tn {
        proof {
            assert((data.len() - to) / (tsize as int) < tn ==> to + tn * tsize > data.len()) by (nonlinear_arith)
                requires to <= data.len(), tsize > 0;
        }
        return Err(truncated_at("Simple FSA transitions", to, tn * tsize, data.len()));
    }
    proof {
        assert(to + tn * tsize <= data.len()) by (nonlinear_arith)
            requires to <= data.len(), tsize > 0, (data.len() - to) / (tsize as int) >= tn;
    }
    let mut i: usize = 0;
    let mut cursor = to;
    while i < tn
        invariant
            tsize == 4 || tsize == 5,
            to + tn * tsize <= data@.len(),
            i <= tn,
            cursor == to + i * tsize,
            offset < data@.len(),
            data@[offset as int] & 128 != 0 ==> morph_payload_fits(data@, offset + 1),
            to == simple_table_start(data@, offset as int),
            tn == (data@[offset as int] & 127) as int,
            offset == state.offset,
            simple_scan(data@, to as int, tsize as int, tn as int, byte, 0)
                == simple_scan(data@, to as int, tsize as int, tn as int, byte, i as int),
        decreases tn - i,
    {
        proof {
            assert(i * tsize + tsize <= tn * tsize) by (nonlinear_arith) requires i < tn, tsize > 0;
        }
        let label = data[cursor];
        if label == byte {
            assert(cursor + 4 <= data@.len());
            let next_offset = read_u24_at(data, cursor + 1, "Simple FSA target offset")?;
            let n = simple_state_at_exec(data, next_offset)?;
            return Ok(Some(n));
        }
        i = i + 1;
        cursor = cursor + tsize;
        proof {
            assert(cursor == to + i * tsize) by (nonlinear_arith) requires cursor == to + (i - 1) * tsize + tsize;
        }
    }
    Ok(None)
}

fn v1_state_at_exec<'a>(data: &'a [u8], offset: usize) -> (r: Result<RawFsaState<'a>>)
    ensures
        r is Ok <==> v1_state_at(data@, offset as int) is Some,
        r matches Ok(s) ==> Some(s.view()) == v1_state_at(data@, offset as int),
        r matches Err(e) ==> e is InvalidDictionary,
{
    if offset >= data.len() {
        return Err(truncated_at("VLength1 target state", offset, 1, data.len()));
    }
    let first = data[offset];
    let mut tn = (first & V1_TRANSITIONS_NUM_MASK) as usize;
    let mut cursor = offset + 1;
    if tn == V1_TRANSITIONS_NUM_MASK as usize {
        if cursor >= data.len() {
            return Err(truncated_at("VLength1 extended transitions count", cursor, 1, data.len()));
        }
        tn = data[cursor] as usize;
        cursor = cursor + 1;
    }
    let mut value: Option<&'a [u8]> = None;
    let mut record: usize = 0;
    let accepting = first & V1_ACCEPTING_FLAG != 0;
    if accepting {
        let (payload, size) = read_morph_payload(data, cursor)?;
        value = Some(payload);
        record = size;
        cursor = cursor + size;
    }
    if offset < V1_INITIAL_STATE_OFFSET {
        return Err(dict_error("VLength1 target precedes initial state", ""));
    }
    let s = RawFsaState {
        offset: offset - V1_INITIAL_STATE_OFFSET,
        accepting,
        value,
        value_record_size: record,
        transitions_num: tn,
        transitions_offset: cursor,
    };
    Ok(s)
}

fn v1_proceed<'a>(data: &'a [u8], state: RawFsaState<'a>, byte: u8) -> (r: Result<Option<RawFsaState<'a>>>)
    ensures
        r is Ok <==> v1_step(data@, state.view(), byte) is Some,
        r matches Ok(o) ==> v1_step(data@, state.view(), byte) == Some(
            match o { Some(n) => Some(n.view()), None => None::<FsaStateSpec> },
        ),
        r matches Err(e) ==> e is InvalidDictionary,
{
    let tn = state.transitions_num;
    let mut cursor = state.transitions_offset;
    let mut i: usize = 0;
    while i < tn
        invariant
            i <= tn,
            tn == state.transitions_num,
            v1_scan(data@, tn as int, byte, 0, state.transitions_offset as int)
                == v1_scan(data@, tn as int, byte, i as int, cursor as int),
        decreases tn - i,
    {
        if cursor >= data.len() || data.len() < 256 {
            return Err(truncated_at("VLength1 transition", cursor, 1, data.len()));
        }
        let input_short_label = data[byte as usize];
        let first = data[cursor];
        let mut c = cursor + 1;
        let offset_size = (first & V1_OFFSET_SIZE_MASK) as usize;
        assert(first & 3 <= 3) by (bit_vector);
        let transition_short_label = first >> 2u8;
        let label_matches;
        if transition_short_label == 0 {
            if c >= data.len() {
                return Err(truncated_at("VLength1 transition label", c, 1, data.len()));
            }
            let label = data[c];
            c = c + 1;
            label_matches = input_short_label == 0 && label == byte;
        } else {
            label_matches = transition_short_label == input_short_label;
        }
        if c > data.len() || data.len() - c < offset_size {
            return Err(truncated_at("VLength1 offset", c, offset_size, data.len()));
        }
        if label_matches {
            let relative_offset = read_vlength1_offset_at(data, c, offset_size);
            let offset_end = c + offset_size;
            if relative_offset > usize::MAX - offset_end {
                return Err(dict_error("VLength1 transition overflow", ""));
            }
            let next_offset = offset_end + relative_offset;
            let n = v1_state_at_exec(data, next_offset)?;
            return Ok(Some(n));
        }
        cursor = c + offset_size;
        i = i + 1;
    }
    Ok(None)
}

fn v2_target_exec<'a>(data: &'a [u8], offset: usize, flags: u8) -> (r: Result<RawFsaState<'a>>)
    ensures
        r is Ok <==> v2_target(data@, offset as int, flags) is Some,
        r matches Ok(s) ==> Some(s.view()) == v2_target(data@, offset as int, flags),
        r matches Err(e) ==> e is InvalidDictionary,
{
    if flags & V2_ACCEPTING_FLAG == 0 {
        let s = RawFsaState {
            offset,
            accepting: false,
            value: None,
            value_record_size: 0,
            transitions_num: 0,
            transitions_offset: 0,
        };
        assert(s.view() == plain_state(offset as int));
        return Ok(s);
    }
    let (value, record) = read_morph_payload(data, offset)?;
    Ok(RawFsaState {
        offset,
        accepting: true,
        value: Some(value),
        value_record_size: record,
        transitions_num: 0,
        transitions_offset: 0,
    })
}

fn v2_proceed<'a>(data: &'a [u8], state: RawFsaState<'a>, byte: u8) -> (r: Result<Option<RawFsaState<'a>>>)
    ensures
        r is Ok <==> v2_step(data@, state.view(), byte) is Some,
        r matches Ok(o) ==> v2_step(data@, state.view(), byte) == Some(
            match o { Some(n) => Some(n.view()), None => None::<FsaStateSpec> },
        ),
        r matches Err(e) ==> e is InvalidDictionary,
{
    let n = data.len();
    if state.value_record_size > usize::MAX - state.offset {
        return Err(dict_error("FSA state offset overflow", ""));
    }
    let mut cursor = state.offset + state.value_record_size;
    loop
        invariant
            v2_step(data@, state.view(), byte) == v2_scan(data@, cursor as int, byte),
        decreases data@.len() - cursor,
    {
        if cursor >= data.len() {
            return Err(truncated_at("VLength2 transition table", cursor, 1, data.len()));
        }
        let label = data[cursor];
        let c = cursor + 1;
        if c >= data.len() && label & V2_LAST_FLAG != 0 {
            return Ok(None);
        }
        if c >= data.len() {
            return Err(truncated_at("VLength2 transition flags", c, 1, data.len()));
        }
        let flags = data[c];
        let mut c2 = c;
        if label == byte {
            let relative_offset = read_vlength2_offset(data, &mut c2)?;
            if relative_offset > data.len() || c2 > data.len() - relative_offset {
                return Err(truncated_at("VLength2 target state", c2, relative_offset, data.len()));
            }
            let next_offset = c2 + relative_offset;
            let n = v2_target_exec(data, next_offset, flags)?;
            return Ok(Some(n));
        }
        if flags & V2_LAST_FLAG != 0 {
            return Ok(None);
        }
        let _ = read_vlength2_offset(data, &mut c2)?;
        if c2 <= cursor || c2 > data.len() {
            return Err(truncated("VLength2 transition table"));
        }
        cursor = c2;
    }
}


proof fn lemma_run_unfold(kind: int, tsize: int, d: Seq<u8>, st: FsaStateSpec, input: Seq<u8>, i: int)
    requires
        0 <= i < input.len(),
    ensures
        fsa_run(kind, tsize, d, st, input.skip(i)) == match fsa_step(kind, tsize, d, st, input[i]) {
            None => None,
            Some(None) => Some(None),
            Some(Some(n)) => fsa_run(kind, tsize, d, n, input.skip(i + 1)),
        },
{
    assert(input.skip(i).drop_first() =~= input.skip(i + 1));
    assert(input.skip(i)[0] == input[i]);
}

proof fn lemma_prefixes_unfold(kind: int, tsize: int, d: Seq<u8>, st: FsaStateSpec, input: Seq<u8>, i: int)
    requires
        0 <= i < input.len(),
    ensures
        fsa_prefixes(kind, tsize, d, st, input.skip(i), i) == match fsa_step(kind, tsize, d, st, input[i]) {
            None => None,
            Some(None) => Some(Seq::empty()),
            Some(Some(n)) => match fsa_prefixes(kind, tsize, d, n, input.skip(i + 1), i + 1) {
                None => None,
                Some(rest) => if n.accepting {
                    Some(seq![(i + 1, n.offset, n.value)] + rest)
                } else {
                    Some(rest)
                },
            },
        },
{
    assert(input.skip(i).drop_first() =~= input.skip(i + 1));
    assert(input.skip(i)[0] == input[i]);
}

// ---------------------------------------------------------------- automata

pub open spec fn fsa_initial(kind: int, d: Seq<u8>) -> Option<FsaStateSpec> {
    if kind == 1 { v1_state_at(d, 257) } else { Some(initial_state_spec()) }
}

/// Recognizing `input` from the automaton's initial state.
pub open spec fn fsa_recognize_start(kind: int, tsize: int, d: Seq<u8>, input: Seq<u8>) -> Option<Option<(int, Seq<u8>)>> {
    match fsa_initial(kind, d) {
        None => None,
        Some(s) => fsa_recognize(kind, tsize, d, s, input),
    }
}

/// The accepted prefixes of `input` from the automaton's initial state.
pub open spec fn fsa_prefixes_start(kind: int, tsize: int, d: Seq<u8>, input: Seq<u8>) -> Option<Seq<(int, int, Seq<u8>)>> {
    match fsa_initial(kind, d) {
        None => None,
        Some(s) => fsa_prefixes(kind, tsize, d, s, input, 0),
    }
}

pub open spec fn prepend_opt(acc: Seq<(int, int, Seq<u8>)>, o: Option<Seq<(int, int, Seq<u8>)>>) -> Option<Seq<(int, int, Seq<u8>)>> {
    match o {
        None => None,
        Some(r) => Some(acc + r),
    }
}

/// The Simple encoding: states with a flag byte, an optional payload and a
/// table of fixed-size transitions.
#[derive(Debug, Clone, Copy)]
pub struct SimpleFsa<'a> {
    data: &'a [u8],
    transition_size: usize,
}

/// The VLength1 encoding: a 256-byte short-label table, a marker, then
/// states with variable-size transitions.
#[derive(Debug, Clone, Copy)]
pub struct VLength1Fsa<'a> {
    data: &'a [u8],
}

/// The VLength2 encoding: transitions with variable-length target offsets,
/// payloads stored at the target states.
#[derive(Debug, Clone, Copy)]
pub struct VLength2Fsa<'a> {
    data: &'a [u8],
}

/// An automaton in any of the three encodings.
#[derive(Debug, Clone, Copy)]
pub enum BinaryFsa<'a> {
    Simple(SimpleFsa<'a>),
    VLength1(VLength1Fsa<'a>),
    VLength2(VLength2Fsa<'a>),
}

impl<'a> BinaryFsa<'a> {
    pub closed spec fn kind(&self) -> int {
        match self {
            BinaryFsa::Simple(_) => 0,
            BinaryFsa::VLength1(_) => 1,
            BinaryFsa::VLength2(_) => 2,
        }
    }

    pub closed spec fn tsize(&self) -> int {
        match self {
            BinaryFsa::Simple(f) => f.transition_size as int,
            _ => 4,
        }
    }

    pub closed spec fn data_view(&self) -> Seq<u8> {
        match self {
            BinaryFsa::Simple(f) => f.data@,
            BinaryFsa::VLength1(f) => f.data@,
            BinaryFsa::VLength2(f) => f.data@,
        }
    }

    pub closed spec fn wf(&self) -> bool {
        match self {
            BinaryFsa::Simple(f) => f.transition_size == 4 || f.transition_size == 5,
            _ => true,
        }
    }

    /// The automaton of a Simple encoding.
    pub fn from_simple(f: SimpleFsa<'a>) -> (b: Self)
        ensures
            b.kind() == 0,
            b.tsize() == f.tsize(),
            b.data_view() == f.data_view(),
            b.wf() == f.wf(),
    {
        BinaryFsa::Simple(f)
    }

    /// The automaton of a VLength1 encoding.
    pub fn from_vlength1(f: VLength1Fsa<'a>) -> (b: Self)
        ensures
            b.kind() == 1,
            b.tsize() == 4,
            b.data_view() == f.data_view(),
            b.wf(),
    {
        BinaryFsa::VLength1(f)
    }

    /// The automaton of a VLength2 encoding.
    pub fn from_vlength2(f: VLength2Fsa<'a>) -> (b: Self)
        ensures
            b.kind() == 2,
            b.tsize() == 4,
            b.data_view() == f.data_view(),
            b.wf(),
    {
        BinaryFsa::VLength2(f)
    }

    fn data(&self) -> (d: &'a [u8])
        ensures
            d@ == self.data_view(),
    {
        match self {
            BinaryFsa::Simple(f) => f.data,
            BinaryFsa::VLength1(f) => f.data,
            BinaryFsa::VLength2(f) => f.data,
        }
    }

    fn initial_state(&self) -> (r: Result<RawFsaState<'a>>)
        ensures
            r is Ok <==> fsa_initial(self.kind(), self.data_view()) is Some,
            r matches Ok(s) ==> fsa_initial(self.kind(), self.data_view()) == Some(s.view()),
            r matches Err(e) ==> e is InvalidDictionary,
    {
        match self {
            BinaryFsa::VLength1(f) => v1_state_at_exec(f.data, V1_INITIAL_STATE_OFFSET),
            _ => Ok(RawFsaState::initial()),
        }
    }

    fn step(&self, state: RawFsaState<'a>, byte: u8) -> (r: Result<Option<RawFsaState<'a>>>)
        requires
            self.wf(),
        ensures
            r is Ok <==> fsa_step(self.kind(), self.tsize(), self.data_view(), state.view(), byte) is Some,
            r matches Ok(o) ==> fsa_step(self.kind(), self.tsize(), self.data_view(), state.view(), byte) == Some(
                match o { Some(n) => Some(n.view()), None => None::<FsaStateSpec> },
            ),
            r matches Err(e) ==> e is InvalidDictionary,
    {
        match self {
            BinaryFsa::Simple(f) => simple_proceed(f.data, f.transition_size, state, byte),
            BinaryFsa::VLength1(f) => v1_proceed(f.data, state, byte),
            BinaryFsa::VLength2(f) => v2_proceed(f.data, state, byte),
        }
    }

    /// Follows the whole input and reports the accepting state it ends in.
    pub fn try_recognize(&self, input: &[u8]) -> (r: Result<Option<RawFsaMatch<'a>>>)
        requires
            self.wf(),
        ensures
            recognize_result_ok(r, fsa_recognize_start(self.kind(), self.tsize(), self.data_view(), input@)),
    {
        let kind = Ghost(self.kind());
        let tsize = Ghost(self.tsize());
        let d = Ghost(self.data_view());
        let init = self.initial_state()?;
        let mut state = init;
        let mut i: usize = 0;
        assert(input@.skip(0) =~= input@);
        while i < input.len()
            invariant
                self.wf(),
                i <= input@.len(),
                fsa_run(kind@, tsize@, d@, init.view(), input@)
                    == fsa_run(kind@, tsize@, d@, state.view(), input@.skip(i as int)),
                kind@ == self.kind(),
                tsize@ == self.tsize(),
                d@ == self.data_view(),
                fsa_initial(kind@, d@) == Some(init.view()),
            decreases input@.len() - i,
        {
            proof {
                lemma_run_unfold(kind@, tsize@, d@, state.view(), input@, i as int);
            }
            match self.step(state, input[i]) {
                Err(e) => {
                    return Err(e);
                },
                Ok(None) => {
                    return Ok(None);
                },
                Ok(Some(next)) => {
                    state = next;
                },
            }
            i = i + 1;
        }
        assert(input@.skip(input@.len() as int) =~= Seq::<u8>::empty());
        if state.accepting {
            Ok(Some(RawFsaMatch { state_offset: state.offset, value: state.payload() }))
        } else {
            Ok(None)
        }
    }

    /// Every accepted prefix met while following the input, shortest first;
    /// the walk stops at the first byte without a transition.
    pub fn prefix_matches(&self, input: &[u8]) -> (r: Result<Vec<RawFsaPrefixMatch<'a>>>)
        requires
            self.wf(),
        ensures
            prefixes_result_ok(r, fsa_prefixes_start(self.kind(), self.tsize(), self.data_view(), input@)),
    {
        let kind = Ghost(self.kind());
        let tsize = Ghost(self.tsize());
        let d = Ghost(self.data_view());
        let init = self.initial_state()?;
        let mut state = init;
        let mut matches: Vec<RawFsaPrefixMatch<'a>> = Vec::new();
        let mut i: usize = 0;
        assert(input@.skip(0) =~= input@);
        assert(matches@.map_values(|m: RawFsaPrefixMatch| prefix_view(m)) =~= Seq::<(int, int, Seq<u8>)>::empty());
        proof {
            let p0 = fsa_prefixes(kind@, tsize@, d@, init.view(), input@, 0);
            if p0 is Some {
                assert(Seq::<(int, int, Seq<u8>)>::empty() + p0->0 =~= p0->0);
            }
        }
        while i < input.len()
            invariant
                self.wf(),
                i <= input@.len(),
                fsa_prefixes(kind@, tsize@, d@, init.view(), input@, 0)
                    == prepend_opt(matches@.map_values(|m: RawFsaPrefixMatch| prefix_view(m)),
                        fsa_prefixes(kind@, tsize@, d@, state.view(), input@.skip(i as int), i as int)),
                kind@ == self.kind(),
                tsize@ == self.tsize(),
                d@ == self.data_view(),
                fsa_initial(kind@, d@) == Some(init.view()),
            decreases input@.len() - i,
        {
            proof {
                lemma_prefixes_unfold(kind@, tsize@, d@, state.view(), input@, i as int);
            }
            let ghost before = matches@.map_values(|m: RawFsaPrefixMatch| prefix_view(m));
            match self.step(state, input[i]) {
                Err(e) => {
                    return Err(e);
                },
                Ok(None) => {
                    assert(before + Seq::<(int, int, Seq<u8>)>::empty() =~= before);
                    return Ok(matches);
                },
                Ok(Some(next)) => {
                    state = next;
                    if state.accepting {
                        let m = RawFsaPrefixMatch { input_end: i + 1, state_offset: state.offset, value: state.payload() };
                        matches.push(m);
                        proof {
                            let after = matches@.map_values(|m: RawFsaPrefixMatch| prefix_view(m));
                            assert(after =~= before.push(prefix_view(m)));
                            let rest = fsa_prefixes(kind@, tsize@, d@, state.view(), input@.skip(i + 1), i + 1);
                            if rest is Some {
                                assert(before + (seq![prefix_view(m)] + rest->0) =~= after + rest->0);
                            }
                        }
                    }
                },
            }
            i = i + 1;
        }
        assert(input@.skip(input@.len() as int) =~= Seq::<u8>::empty());
        assert(matches@.map_values(|m: RawFsaPrefixMatch| prefix_view(m)) + Seq::<(int, int, Seq<u8>)>::empty()
            =~= matches@.map_values(|m: RawFsaPrefixMatch| prefix_view(m)));
        Ok(matches)
    }
}

impl<'a> SimpleFsa<'a> {
    pub closed spec fn data_view(&self) -> Seq<u8> {
        self.data@
    }

    pub closed spec fn tsize(&self) -> int {
        self.transition_size as int
    }

    pub closed spec fn wf(&self) -> bool {
        self.transition_size == 4 || self.transition_size == 5
    }

    /// An automaton over `data` that was checked when its dictionary was
    /// loaded; every lookup still checks each read.
    pub fn from_data_unchecked(data: &'a [u8], has_transition_data: bool) -> (f: Self)
        ensures
            f.wf(),
            f.data_view() == data@,
            f.tsize() == (if has_transition_data { 5int } else { 4 }),
    {
        SimpleFsa {
            data,
            transition_size: if has_transition_data {
                SIMPLE_TRANSDUCER_TRANSITION_SIZE
            } else {
                SIMPLE_TRANSITION_SIZE
            },
        }
    }

    /// An automaton over `data`; transitions carry one extra byte when
    /// `has_transition_data` is set. The data must hold the initial state.
    pub fn new(data: &'a [u8], has_transition_data: bool) -> (r: Result<Self>)
        ensures
            r is Ok <==> data@.len() >= 1,
            r matches Ok(f) ==> f.wf() && f.data_view() == data@
                && f.tsize() == (if has_transition_data { 5int } else { 4 }),
            r matches Err(e) ==> e is InvalidDictionary,
    {
        validate_min_len(data, 1, "Simple FSA initial state")?;
        Ok(SimpleFsa {
            data,
            transition_size: if has_transition_data {
                SIMPLE_TRANSDUCER_TRANSITION_SIZE
            } else {
                SIMPLE_TRANSITION_SIZE
            },
        })
    }

    pub fn try_recognize(&self, input: &[u8]) -> (r: Result<Option<RawFsaMatch<'a>>>)
        requires
            self.wf(),
        ensures
            recognize_result_ok(r, fsa_recognize_start(0, self.tsize(), self.data_view(), input@)),
    {
        BinaryFsa::Simple(*self).try_recognize(input)
    }

    pub fn prefix_matches(&self, input: &[u8]) -> (r: Result<Vec<RawFsaPrefixMatch<'a>>>)
        requires
            self.wf(),
        ensures
            prefixes_result_ok(r, fsa_prefixes_start(0, self.tsize(), self.data_view(), input@)),
    {
        BinaryFsa::Simple(*self).prefix_matches(input)
    }
}

impl<'a> VLength1Fsa<'a> {
    pub closed spec fn data_view(&self) -> Seq<u8> {
        self.data@
    }

    pub fn try_recognize(&self, input: &[u8]) -> (r: Result<Option<RawFsaMatch<'a>>>)
        ensures
            recognize_result_ok(r, fsa_recognize_start(1, 4, self.data_view(), input@)),
    {
        BinaryFsa::VLength1(*self).try_recognize(input)
    }

    pub fn prefix_matches(&self, input: &[u8]) -> (r: Result<Vec<RawFsaPrefixMatch<'a>>>)
        ensures
            prefixes_result_ok(r, fsa_prefixes_start(1, 4, self.data_view(), input@)),
    {
        BinaryFsa::VLength1(*self).prefix_matches(input)
    }
}

impl<'a> VLength2Fsa<'a> {
    pub closed spec fn data_view(&self) -> Seq<u8> {
        self.data@
    }

    pub fn new(data: &'a [u8]) -> (f: Self)
        ensures
            f.data_view() == data@,
    {
        VLength2Fsa { data }
    }

    pub fn try_recognize(&self, input: &[u8]) -> (r: Result<Option<RawFsaMatch<'a>>>)
        ensures
            recognize_result_ok(r, fsa_recognize_start(2, 4, self.data_view(), input@)),
    {
        BinaryFsa::VLength2(*self).try_recognize(input)
    }

    pub fn prefix_matches(&self, input: &[u8]) -> (r: Result<Vec<RawFsaPrefixMatch<'a>>>)
        ensures
            prefixes_result_ok(r, fsa_prefixes_start(2, 4, self.data_view(), input@)),
    {
        BinaryFsa::VLength2(*self).prefix_matches(input)
    }
}

/// Checks every VLength1 state reachable from the initial state: each header,
/// transition and target must lie within the data and every target must
/// follow the initial state.
pub fn validate_reachable_vlength1_states(data: &[u8]) -> (r: Result<()>)
    ensures
        r is Ok ==> v1_state_at(data@, 257) is Some,
        r is Ok ==> v1_initial_state_ok(data@),
        r matches Err(e) ==> e is InvalidDictionary,
{
    let n = data.len();
    if n == usize::MAX {
        return Err(dict_error("VLength1 FSA is too large", ""));
    }
    let mut seen: Vec<bool> = Vec::new();
    let mut k: usize = 0;
    while k <= n
        invariant
            k <= n + 1,
            n < usize::MAX,
            seen@.len() == k,
            forall|j: int| 0 <= j < k ==> !seen@[j],
        decreases n + 1 - k,
    {
        seen.push(false);
        k = k + 1;
    }
    let ghost visited: Set<int> = Set::empty();
    let mut stack: Vec<usize> = Vec::new();
    stack.push(V1_INITIAL_STATE_OFFSET);
    let mut first_done = false;
    proof {
        lemma_int_range(0, seen@.len() as int);
    }
    loop
        invariant
            seen@.len() == n + 1,
            n == data@.len(),
            visited.finite(),
            visited.subset_of(set_int_range(0, seen@.len() as int)),
            forall|j: int| 0 <= j < seen@.len() ==> (seen@[j] <==> visited.contains(j)),
            set_int_range(0, seen@.len() as int).len() == seen@.len(),
            set_int_range(0, seen@.len() as int).finite(),
            !first_done ==> stack@ == seq![257usize],
            first_done ==> v1_state_at(data@, 257) is Some,
            first_done ==> v1_initial_state_ok(data@),
            !first_done ==> visited == Set::<int>::empty(),
        decreases seen@.len() - visited.len(), stack@.len(),
    {
        proof {
            lemma_len_subset(visited, set_int_range(0, seen@.len() as int));
        }
        let offset = match stack.pop() {
            Some(o) => o,
            None => {
                return Ok(());
            },
        };
        if offset >= seen.len() {
            return Err(truncated_at("VLength1 target state", offset, 1, data.len()));
        }
        if seen[offset] {
            proof {
                if !first_done {
                    assert(visited.contains(offset as int));
                    assert(false);
                }
            }
            continue;
        }
        seen.set(offset, true);
        proof {
            vstd::set::axiom_set_insert_len(visited, offset as int);
            assert(!visited.contains(offset as int));
            visited = visited.insert(offset as int);
            assert forall|j: int| 0 <= j < seen@.len() implies (seen@[j] <==> visited.contains(j)) by {}
            assert(visited.subset_of(set_int_range(0, seen@.len() as int)));
            lemma_len_subset(visited, set_int_range(0, seen@.len() as int));
        }
        let state = v1_state_at_exec(data, offset)?;
        first_done = true;
        let tn = state.transitions_num;
        let mut cursor = state.transitions_offset;
        let mut i: usize = 0;
        while i < tn
            invariant
                i <= tn,
                n == data@.len(),
                tn == state.transitions_num,
                v1_transitions_ok(data@, tn as int, i as int, cursor as int)
                    ==> v1_transitions_ok(data@, tn as int, 0, state.transitions_offset as int),
            decreases tn - i,
        {
            let ghost i0 = i as int;
            let ghost cursor0 = cursor as int;
            if cursor >= data.len() {
                return Err(truncated_at("VLength1 transition", cursor, 1, data.len()));
            }
            let first = data[cursor];
            cursor = cursor + 1;
            let offset_size = (first & V1_OFFSET_SIZE_MASK) as usize;
            assert(first & 3 <= 3) by (bit_vector);
            if first >> 2u8 == 0 {
                if cursor >= data.len() {
                    return Err(truncated_at("VLength1 transition label", cursor, 1, data.len()));
                }
                cursor = cursor + 1;
            }
            if cursor > data.len() || data.len() - cursor < offset_size {
                return Err(truncated_at("VLength1 offset", cursor, offset_size, data.len()));
            }
            let offset_end = cursor + offset_size;
            let relative_offset = read_vlength1_offset_at(data, cursor, offset_size);
            if relative_offset > usize::MAX - offset_end {
                return Err(dict_error("VLength1 transition overflow", ""));
            }
            let next_offset = offset_end + relative_offset;
            if next_offset < V1_INITIAL_STATE_OFFSET {
                return Err(dict_error("VLength1 target precedes initial state", ""));
            }
            if next_offset >= data.len() {
                return Err(truncated_at("VLength1 target state", next_offset, 1, data.len()));
            }
            stack.push(next_offset);
            cursor = offset_end;
            i = i + 1;
            proof {
                assert(v1_transitions_ok(data@, tn as int, i as int, cursor as int)
                    ==> v1_transitions_ok(data@, tn as int, i0, cursor0));
            }
        }
    }
}

impl<'a> VLength1Fsa<'a> {
    /// An automaton over `data` that was checked when its dictionary was
    /// loaded; every lookup still checks each read.
    pub fn from_data_unchecked(data: &'a [u8]) -> (f: Self)
        ensures
            f.data_view() == data@,
    {
        VLength1Fsa { data }
    }

    /// An automaton over `data`, after checking the short-label table, the
    /// `^` marker and every reachable state.
    pub fn new(data: &'a [u8]) -> (r: Result<Self>)
        ensures
            r is Ok ==> data@.len() >= 257 && data@[256] == 94u8 && v1_state_at(data@, 257) is Some,
            r is Ok ==> v1_initial_state_ok(data@),
            r matches Ok(f) ==> f.data_view() == data@,
            r matches Err(e) ==> e is InvalidDictionary,
    {
        validate_min_len(data, V1_INITIAL_STATE_OFFSET, "VLength1 FSA prologue")?;
        if data[V1_INITIAL_STATE_OFFSET - 1] != 94u8 {
            return Err(dict_error("VLength1 FSA prologue is missing magic marker", ""));
        }
        validate_reachable_vlength1_states(data)?;
        Ok(VLength1Fsa { data })
    }
}

} // verus!
