//! The sections of a binary dictionary file: prologue, automaton, epilogue
//! with the dictionary id, copyright, id tables and segmentation rules.
use vstd::prelude::*;
use vstd::utf8::valid_utf8;
use crate::error::{Error, Result};
use crate::id_resolver::{normalized_id_value, IdResolver};
use super::fsa::{BinaryFsa, SimpleFsa, VLength1Fsa, VLength2Fsa};
use super::read::{
    be_u32, c_string_at, c_string_end, c_string_read_ok, c_string_readable, dict_error, lemma_c_string_at, read_c_string_at,
    read_c_string_at_limit, read_u32_at, past_limit, bad_magic, dict_error_num, truncated_at, validate_limit, validate_min_len,
};
use super::segmentation::{metadata_parsed, metadata_records, parse_segmentation_metadata, SegmentationMetadata};
use super::{FSA_DATA_OFFSET, FSA_DATA_SIZE_OFFSET, IMPLEMENTATION_NUM_OFFSET, MAGIC_NUMBER, VERSION_NUM, VERSION_NUM_OFFSET};

verus! {

/// The encoding of the dictionary automaton.
#[derive(Debug, Clone, Copy, PartialEq, Eq, Structural)]
pub enum FsaImplementation {
    Simple,
    SimpleWithTransitionData,
    VLength1,
    VLength2,
}

/// An automaton in an encoding that loading checks by its size alone is
/// sound: the simple encodings need their initial state, the `VLength2`
/// encoding needs nothing.
pub open spec fn size_checked_fsa_ok(implementation: FsaImplementation, fsa_data: Seq<u8>) -> bool {
    match implementation {
        FsaImplementation::Simple => fsa_data.len() >= 1,
        FsaImplementation::SimpleWithTransitionData => fsa_data.len() >= 1,
        FsaImplementation::VLength1 => false,
        FsaImplementation::VLength2 => true,
    }
}

/// The encoding named by an implementation code of the prologue.
pub open spec fn implementation_of(code: u8) -> Option<FsaImplementation> {
    if code == 0 {
        Some(FsaImplementation::Simple)
    } else if code == 128 {
        Some(FsaImplementation::SimpleWithTransitionData)
    } else if code == 1 {
        Some(FsaImplementation::VLength1)
    } else if code == 2 {
        Some(FsaImplementation::VLength2)
    } else {
        None
    }
}

impl FsaImplementation {
    pub fn from_code(code: u8) -> (r: Result<Self>)
        ensures
            r is Ok <==> implementation_of(code) is Some,
            r matches Ok(i) ==> implementation_of(code) == Some(i),
            r matches Err(e) ==> e is InvalidDictionary,
    {
        if code == 0 {
            Ok(FsaImplementation::Simple)
        } else if code == 128 {
            Ok(FsaImplementation::SimpleWithTransitionData)
        } else if code == 1 {
            Ok(FsaImplementation::VLength1)
        } else if code == 2 {
            Ok(FsaImplementation::VLength2)
        } else {
            Err(dict_error_num("unsupported FSA implementation code: ", code as u64, ""))
        }
    }
}

/// The fixed part of the layout: magic number, version, a known automaton
/// encoding, the automaton and the segmentation rules within the bytes.
pub open spec fn prologue_ok(b: Seq<u8>) -> bool {
    &&& b.len() >= 10
    &&& be_u32(b, 0) == MAGIC_NUMBER as int
    &&& b[4] == VERSION_NUM
    &&& implementation_of(b[5]) is Some
    &&& 10 + be_u32(b, 6) + 4 <= b.len()
    &&& 10 + be_u32(b, 6) + 4 + be_u32(b, 10 + be_u32(b, 6)) <= b.len()
}

/// Where the automaton ends and the epilogue begins.
pub open spec fn fsa_end_of(b: Seq<u8>) -> int {
    10 + be_u32(b, 6)
}

/// The dictionary id and copyright: two zero-terminated strings after the
/// automaton's size word, and the offset after them.
pub open spec fn metadata_strings(b: Seq<u8>) -> Option<(Seq<char>, Seq<char>, int)> {
    match c_string_at(b, fsa_end_of(b) + 4) {
        None => None,
        Some((id, next)) => match c_string_at(b, next) {
            None => None,
            Some((copyright, end)) => Some((id, copyright, end)),
        },
    }
}

/// A dictionary file split into its sections. The automaton and the
/// segmentation rules are read on demand from the kept bytes.
#[derive(Debug, Clone)]
pub struct BinaryDictionaryData {
    bytes: Vec<u8>,
    implementation: FsaImplementation,
    fsa_end: usize,
    id_resolver_offset: usize,
    segmentation_rules_offset: usize,
    dict_id: String,
    copyright: String,
}

impl BinaryDictionaryData {
    pub closed spec fn spec_bytes(&self) -> Seq<u8> {
        self.bytes@
    }

    pub closed spec fn spec_implementation(&self) -> FsaImplementation {
        self.implementation
    }

    pub closed spec fn spec_dict_id(&self) -> Seq<char> {
        self.dict_id@
    }

    pub closed spec fn spec_copyright(&self) -> Seq<char> {
        self.copyright@
    }

    pub closed spec fn spec_fsa_data(&self) -> Seq<u8> {
        self.bytes@.subrange(10, self.fsa_end as int)
    }

    pub closed spec fn spec_epilogue(&self) -> Seq<u8> {
        self.bytes@.subrange(self.fsa_end as int, self.bytes@.len() as int)
    }

    pub closed spec fn spec_rules_data(&self) -> Seq<u8> {
        self.bytes@.subrange(self.segmentation_rules_offset as int, self.bytes@.len() as int)
    }

    pub closed spec fn spec_id_resolver_offset(&self) -> int {
        self.id_resolver_offset as int
    }

    pub closed spec fn wf(&self) -> bool {
        &&& 10 <= self.fsa_end <= self.bytes@.len()
        &&& self.segmentation_rules_offset <= self.bytes@.len()
        &&& self.implementation_code_ok()
    }

    closed spec fn implementation_code_ok(&self) -> bool {
        true
    }

    /// Splits a dictionary file into its sections. It fails, with
    /// `InvalidDictionary`, exactly when the prologue is malformed or the
    /// dictionary id and copyright are not two readable zero-terminated UTF-8
    /// strings after the automaton's size word.
    pub fn from_bytes(bytes: Vec<u8>) -> (r: Result<Self>)
        ensures
            r is Ok <==> prologue_ok(bytes@) && metadata_strings(bytes@) is Some,
            r matches Ok(d) ==> metadata_strings(bytes@)
                == Some((d.spec_dict_id(), d.spec_copyright(), d.spec_id_resolver_offset())),
            !prologue_ok(bytes@) ==> r is Err,
            r matches Ok(d) ==> {
                &&& d.wf()
                &&& prologue_ok(bytes@)
                &&& d.spec_bytes() == bytes@
                &&& implementation_of(bytes@[5]) == Some(d.spec_implementation())
                &&& d.spec_fsa_data() == bytes@.subrange(10, fsa_end_of(bytes@))
                &&& d.spec_epilogue() == bytes@.subrange(fsa_end_of(bytes@), bytes@.len() as int)
                &&& d.spec_rules_data() == bytes@.subrange(
                    fsa_end_of(bytes@) + 4 + be_u32(bytes@, fsa_end_of(bytes@)), bytes@.len() as int)
                &&& d.spec_rules_data_start() == fsa_end_of(bytes@) + 4 + be_u32(bytes@, fsa_end_of(bytes@))
                &&& exists|next: int|
                    c_string_read_ok(bytes@, fsa_end_of(bytes@) + 4, bytes@.len() as int, d.spec_dict_id(), next)
                    && c_string_read_ok(bytes@, next, bytes@.len() as int, d.spec_copyright(), d.spec_id_resolver_offset())
            },
            prologue_ok(bytes@) && !c_string_readable(bytes@, fsa_end_of(bytes@) + 4, bytes@.len() as int) ==> r is Err,
            r matches Err(e) ==> e is InvalidDictionary,
    {
        validate_min_len(bytes.as_slice(), FSA_DATA_OFFSET, "dictionary prologue")?;
        let magic = read_u32_at(bytes.as_slice(), 0, "magic number")?;
        if magic != MAGIC_NUMBER {
            return Err(bad_magic(magic));
        }
        let version = bytes[VERSION_NUM_OFFSET];
        if version != VERSION_NUM {
            return Err(dict_error_num("unsupported dictionary version: ", version as u64, ""));
        }
        let implementation = FsaImplementation::from_code(bytes[IMPLEMENTATION_NUM_OFFSET])?;
        let fsa_size = read_u32_at(bytes.as_slice(), FSA_DATA_SIZE_OFFSET, "FSA size")? as usize;
        if fsa_size > bytes.len() - FSA_DATA_OFFSET {
            return Err(dict_error("FSA data exceeds dictionary size", ""));
        }
        let fsa_end = FSA_DATA_OFFSET + fsa_size;
        if bytes.len() - fsa_end < 4 {
            return Err(truncated_at("dictionary epilogue offset", fsa_end, 4, bytes.len()));
        }
        let rules_offset = read_u32_at(bytes.as_slice(), fsa_end, "segmentation rules offset")? as usize;
        let metadata_start = fsa_end + 4;
        if rules_offset > bytes.len() - metadata_start {
            return Err(dict_error("segmentation rules offset exceeds dictionary size", ""));
        }
        let segmentation_rules_offset = metadata_start + rules_offset;
        let ghost b = bytes@;
        assert(fsa_end == fsa_end_of(b));
        assert(prologue_ok(b));
        let (dict_id, copyright_start) = read_c_string_at(bytes.as_slice(), metadata_start, "dictionary id")?;
        proof { lemma_c_string_at(b, metadata_start as int, dict_id@, copyright_start as int); }
        let (copyright, id_resolver_offset) = read_c_string_at(bytes.as_slice(), copyright_start, "dictionary copyright")?;
        proof { lemma_c_string_at(b, copyright_start as int, copyright@, id_resolver_offset as int); }
        assert(c_string_read_ok(b, fsa_end_of(b) + 4, b.len() as int, dict_id@, copyright_start as int));
        let d = BinaryDictionaryData {
            bytes,
            implementation,
            fsa_end,
            id_resolver_offset,
            segmentation_rules_offset,
            dict_id,
            copyright,
        };
        assert(c_string_read_ok(b, copyright_start as int, b.len() as int, d.spec_copyright(), d.spec_id_resolver_offset()));
        assert(d.spec_rules_data() == b.subrange(fsa_end_of(b) + 4 + be_u32(b, fsa_end_of(b)), b.len() as int));
        Ok(d)
    }

    pub fn version(&self) -> (v: u8)
        ensures
            v == VERSION_NUM,
    {
        VERSION_NUM
    }

    pub fn implementation(&self) -> (i: FsaImplementation)
        ensures
            i == self.spec_implementation(),
    {
        self.implementation
    }

    pub fn dict_id(&self) -> (s: &str)
        ensures
            s@ == self.spec_dict_id(),
    {
        self.dict_id.as_str()
    }

    pub fn copyright(&self) -> (s: &str)
        ensures
            s@ == self.spec_copyright(),
    {
        self.copyright.as_str()
    }

    pub fn fsa_data(&self) -> (s: &[u8])
        requires
            self.wf(),
        ensures
            s@ == self.spec_fsa_data(),
    {
        vstd::slice::slice_subrange(self.bytes.as_slice(), FSA_DATA_OFFSET, self.fsa_end)
    }

    pub fn epilogue(&self) -> (s: &[u8])
        requires
            self.wf(),
        ensures
            s@ == self.spec_epilogue(),
    {
        vstd::slice::slice_subrange(self.bytes.as_slice(), self.fsa_end, self.bytes.len())
    }

    pub fn segmentation_rules_data(&self) -> (s: &[u8])
        requires
            self.wf(),
        ensures
            s@ == self.spec_rules_data(),
    {
        vstd::slice::slice_subrange(self.bytes.as_slice(), self.segmentation_rules_offset, self.bytes.len())
    }

    /// The segmentation rules section, parsed.
    pub fn segmentation_metadata(&self) -> (r: Result<SegmentationMetadata>)
        requires
            self.wf(),
        ensures
            r is Ok <==> metadata_records(self.spec_rules_data()) is Some,
            r matches Ok(m) ==> metadata_parsed(m, self.spec_rules_data()),
            r matches Ok(m) ==> m.wf(),
            r matches Err(e) ==> e is InvalidDictionary,
    {
        parse_segmentation_metadata(self.segmentation_rules_data())
    }

    /// The tagset id and the tag, name and labels tables, which lie between
    /// the copyright and the segmentation rules: the resolver starts from
    /// the default one and each table entry then sets its id, so the last
    /// entry for an id wins.
    pub fn id_resolver(&self) -> (r: Result<IdResolver>)
        requires
            self.wf(),
        ensures
            r is Ok <==> id_tables_at(self.spec_bytes(), self.spec_id_resolver_offset(), self.spec_rules_data_start()) is Some,
            r matches Ok(res) ==> res.wf() && (id_tables_at(self.spec_bytes(), self.spec_id_resolver_offset(),
                self.spec_rules_data_start()) matches Some((tagset, tags, names, labels))
                && res.spec_tagset_id() == tagset && tags_applied(res, tags) && names_applied(res, names)
                && labels_applied(res, labels)),
            r matches Err(e) ==> e is InvalidDictionary,
    {
        let bytes = self.bytes.as_slice();
        let limit = self.segmentation_rules_offset;
        let ghost s = bytes@;
        let mut resolver = IdResolver::default();
        let read = read_c_string_at_limit(bytes, self.id_resolver_offset, limit, "tagset id");
        proof {
            if read is Err {
                assert(c_string_before(s, self.spec_id_resolver_offset(), limit as int) is None);
            }
        }
        let (tagset_id, next) = read?;
        proof {
            lemma_c_string_before(s, self.spec_id_resolver_offset(), limit as int, tagset_id@, next as int);
        }
        resolver.set_tagset_id(tagset_id.as_str());
        let mut cursor = next;
        let tags = read_id_string_table(bytes, &mut cursor, limit)?;
        let mut i: usize = 0;
        proof {
            assert(id_entry_views(tags@).take(0) =~= Seq::<(int, Seq<char>)>::empty());
        }
        while i < tags.len()
            invariant
                resolver.wf(),
                resolver.spec_tagset_id() == tagset_id@,
                i <= tags@.len(),
                forall|k: int| 0 <= k < tags@.len() ==> 0 <= #[trigger] tags@[k].0 < 65536,
                tags_applied(resolver, id_entry_views(tags@).take(i as int)),
            decreases tags@.len() - i,
        {
            let ghost before = resolver;
            let id = tags[i].0;
            resolver.set_tag(id, tags[i].1.as_str());
            proof {
                before.lemma_tables();
                resolver.lemma_tables();
                let v = id_entry_views(tags@);
                assert(v.take(i + 1).drop_last() =~= v.take(i as int));
                assert(v.take(i + 1).last() == (id as int, tags@[i as int].1@));
                assert forall|id2: int| (#[trigger] last_value(v.take(i + 1), id2)) is Some implies resolver.has_tag(id2)
                    && resolver.spec_tag(id2) == last_value(v.take(i + 1), id2).unwrap() by {
                    if id2 != id {
                        assert(last_value(v.take(i + 1), id2) == last_value(v.take(i as int), id2));
                        assert(before.has_tag(id2));
                    }
                }
            }
            i = i + 1;
        }
        proof {
            assert(id_entry_views(tags@).take(tags@.len() as int) =~= id_entry_views(tags@));
        }
        let names = read_id_string_table(bytes, &mut cursor, limit)?;
        let mut i: usize = 0;
        proof {
            assert(id_entry_views(names@).take(0) =~= Seq::<(int, Seq<char>)>::empty());
        }
        while i < names.len()
            invariant
                resolver.wf(),
                resolver.spec_tagset_id() == tagset_id@,
                i <= names@.len(),
                forall|k: int| 0 <= k < names@.len() ==> 0 <= #[trigger] names@[k].0 < 65536,
                tags_applied(resolver, id_entry_views(tags@)),
                names_applied(resolver, id_entry_views(names@).take(i as int)),
            decreases names@.len() - i,
        {
            let ghost before = resolver;
            let id = names[i].0;
            resolver.set_name(id, names[i].1.as_str());
            proof {
                before.lemma_tables();
                resolver.lemma_tables();
                let v = id_entry_views(names@);
                assert(v.take(i + 1).drop_last() =~= v.take(i as int));
                assert(v.take(i + 1).last() == (id as int, names@[i as int].1@));
                assert forall|id2: int| (#[trigger] last_value(v.take(i + 1), id2)) is Some implies resolver.has_name(id2)
                    && resolver.spec_name(id2) == normalized_id_value(last_value(v.take(i + 1), id2).unwrap()) by {
                    if id2 != id {
                        assert(last_value(v.take(i + 1), id2) == last_value(v.take(i as int), id2));
                        assert(before.has_name(id2));
                    }
                }
            }
            i = i + 1;
        }
        proof {
            assert(id_entry_views(names@).take(names@.len() as int) =~= id_entry_views(names@));
        }
        let labels = read_id_string_table(bytes, &mut cursor, limit)?;
        let mut i: usize = 0;
        proof {
            assert(id_entry_views(labels@).take(0) =~= Seq::<(int, Seq<char>)>::empty());
        }
        while i < labels.len()
            invariant
                resolver.wf(),
                resolver.spec_tagset_id() == tagset_id@,
                i <= labels@.len(),
                forall|k: int| 0 <= k < labels@.len() ==> 0 <= #[trigger] labels@[k].0 < 65536,
                tags_applied(resolver, id_entry_views(tags@)),
                names_applied(resolver, id_entry_views(names@)),
                labels_applied(resolver, id_entry_views(labels@).take(i as int)),
            decreases labels@.len() - i,
        {
            let ghost before = resolver;
            let id = labels[i].0;
            resolver.set_labels_in_order(id, labels[i].1.as_str());
            proof {
                before.lemma_tables();
                resolver.lemma_tables();
                let v = id_entry_views(labels@);
                assert(v.take(i + 1).drop_last() =~= v.take(i as int));
                assert(v.take(i + 1).last() == (id as int, labels@[i as int].1@));
                assert forall|id2: int| (#[trigger] last_value(v.take(i + 1), id2)) is Some implies resolver.has_labels(id2)
                    && resolver.spec_labels(id2) == normalized_id_value(last_value(v.take(i + 1), id2).unwrap()) by {
                    if id2 != id {
                        assert(last_value(v.take(i + 1), id2) == last_value(v.take(i as int), id2));
                        assert(before.has_labels(id2));
                    }
                }
            }
            i = i + 1;
        }
        proof {
            assert(id_entry_views(labels@).take(labels@.len() as int) =~= id_entry_views(labels@));
        }
        Ok(resolver)
    }

    pub closed spec fn spec_rules_data_start(&self) -> int {
        self.segmentation_rules_offset as int
    }

    pub closed spec fn fsa_kind(&self) -> int {
        match self.implementation {
            FsaImplementation::Simple => 0,
            FsaImplementation::SimpleWithTransitionData => 0,
            FsaImplementation::VLength1 => 1,
            FsaImplementation::VLength2 => 2,
        }
    }

    pub closed spec fn fsa_tsize(&self) -> int {
        match self.implementation {
            FsaImplementation::SimpleWithTransitionData => 5,
            _ => 4,
        }
    }

    /// The automaton in the dictionary's encoding, after the checks that
    /// encoding makes when it is loaded.
    pub fn fsa(&self) -> (r: Result<BinaryFsa<'_>>)
        requires
            self.wf(),
        ensures
            r matches Ok(f) ==> f.wf() && f.kind() == self.fsa_kind() && f.tsize() == self.fsa_tsize()
                && f.data_view() == self.spec_fsa_data(),
            r matches Err(e) ==> e is InvalidDictionary,
            size_checked_fsa_ok(self.spec_implementation(), self.spec_fsa_data()) ==> r is Ok,
    {
        let data = self.fsa_data();
        match self.implementation {
            FsaImplementation::Simple => {
                let f = SimpleFsa::new(data, false)?;
                Ok(BinaryFsa::from_simple(f))
            },
            FsaImplementation::SimpleWithTransitionData => {
                let f = SimpleFsa::new(data, true)?;
                Ok(BinaryFsa::from_simple(f))
            },
            FsaImplementation::VLength1 => {
                let f = VLength1Fsa::new(data)?;
                Ok(BinaryFsa::from_vlength1(f))
            },
            FsaImplementation::VLength2 => Ok(BinaryFsa::from_vlength2(VLength2Fsa::new(data))),
        }
    }

    /// The automaton in the dictionary's encoding, without the load-time
    /// checks (made once by `fsa`); each lookup still checks every read.
    pub fn fsa_unchecked(&self) -> (f: BinaryFsa<'_>)
        requires
            self.wf(),
        ensures
            f.wf() && f.kind() == self.fsa_kind() && f.tsize() == self.fsa_tsize()
                && f.data_view() == self.spec_fsa_data(),
    {
        let data = self.fsa_data();
        match self.implementation {
            FsaImplementation::Simple => BinaryFsa::from_simple(SimpleFsa::from_data_unchecked(data, false)),
            FsaImplementation::SimpleWithTransitionData => BinaryFsa::from_simple(SimpleFsa::from_data_unchecked(data, true)),
            FsaImplementation::VLength1 => BinaryFsa::from_vlength1(VLength1Fsa::from_data_unchecked(data)),
            FsaImplementation::VLength2 => BinaryFsa::from_vlength2(VLength2Fsa::new(data)),
        }
    }

    /// The automaton, when the dictionary uses the VLength2 encoding.
    pub fn vlength2_fsa(&self) -> (r: Result<VLength2Fsa<'_>>)
        requires
            self.wf(),
        ensures
            r is Ok <==> self.spec_implementation() == FsaImplementation::VLength2,
            r matches Ok(f) ==> f.data_view() == self.spec_fsa_data(),
            r matches Err(e) ==> e is InvalidDictionary,
    {
        match self.implementation {
            FsaImplementation::VLength2 => Ok(VLength2Fsa::new(self.fsa_data())),
            _ => Err(dict_error("dictionary does not use VLength2 FSA encoding", "")),
        }
    }
}

/// The zero-terminated string at `offset` that ends before `limit`, and
/// the offset past its terminator.
pub open spec fn c_string_before(s: Seq<u8>, offset: int, limit: int) -> Option<(Seq<char>, int)> {
    if c_string_readable(s, offset, limit) { c_string_at(s, offset) } else { None }
}

proof fn lemma_c_string_before(s: Seq<u8>, offset: int, limit: int, text: Seq<char>, next: int)
    requires
        c_string_read_ok(s, offset, limit, text, next),
    ensures
        c_string_before(s, offset, limit) == Some((text, next)),
{
    assert(offset <= next - 1 < limit && c_string_end(s, offset, next - 1) && valid_utf8(s.subrange(offset, next - 1)));
    assert(c_string_read_ok(s, offset, s.len() as int, text, next));
    lemma_c_string_at(s, offset, text, next);
}

/// `count` entries of an id table from `cursor`: each a 16-bit id and a
/// zero-terminated string before `limit`; the entries and the offset past
/// them.
pub open spec fn id_entries_at(s: Seq<u8>, cursor: int, limit: int, count: nat) -> Option<(Seq<(int, Seq<char>)>, int)>
    decreases count,
{
    if count == 0 {
        Some((Seq::empty(), cursor))
    } else if !(0 <= cursor <= limit && limit - cursor >= 2) {
        None
    } else {
        match c_string_before(s, cursor + 2, limit) {
            None => None,
            Some((text, next)) => match id_entries_at(s, next, limit, (count - 1) as nat) {
                None => None,
                Some((rest, end)) => Some((seq![(s[cursor] * 256 + s[cursor + 1], text)] + rest, end)),
            },
        }
    }
}

/// The id table at `cursor`: a 16-bit entry count and its entries.
pub open spec fn id_table_at(s: Seq<u8>, cursor: int, limit: int) -> Option<(Seq<(int, Seq<char>)>, int)> {
    if !(0 <= cursor <= limit && limit - cursor >= 2) {
        None
    } else {
        id_entries_at(s, cursor + 2, limit, (s[cursor] * 256 + s[cursor + 1]) as nat)
    }
}

/// The tagset id and the tag, name and labels tables from `offset` on,
/// all before `limit`.
pub open spec fn id_tables_at(s: Seq<u8>, offset: int, limit: int)
    -> Option<(Seq<char>, Seq<(int, Seq<char>)>, Seq<(int, Seq<char>)>, Seq<(int, Seq<char>)>)> {
    match c_string_before(s, offset, limit) {
        None => None,
        Some((tagset, c1)) => match id_table_at(s, c1, limit) {
            None => None,
            Some((tags, c2)) => match id_table_at(s, c2, limit) {
                None => None,
                Some((names, c3)) => match id_table_at(s, c3, limit) {
                    None => None,
                    Some((labels, _end)) => Some((tagset, tags, names, labels)),
                },
            },
        },
    }
}

/// The text of the last entry with the id.
pub open spec fn last_value(entries: Seq<(int, Seq<char>)>, id: int) -> Option<Seq<char>>
    decreases entries.len(),
{
    if entries.len() == 0 {
        None
    } else if entries.last().0 == id {
        Some(entries.last().1)
    } else {
        last_value(entries.drop_last(), id)
    }
}

/// Every id of the tag entries has the text of its last entry.
pub open spec fn tags_applied(res: IdResolver, entries: Seq<(int, Seq<char>)>) -> bool {
    forall|id: int| #[trigger] last_value(entries, id) matches Some(t) ==> res.has_tag(id) && res.spec_tag(id) == t
}

/// Every id of the name entries has the text of its last entry.
pub open spec fn names_applied(res: IdResolver, entries: Seq<(int, Seq<char>)>) -> bool {
    forall|id: int| #[trigger] last_value(entries, id) matches Some(t) ==> res.has_name(id)
        && res.spec_name(id) == normalized_id_value(t)
}

/// Every id of the labels entries has the text of its last entry.
pub open spec fn labels_applied(res: IdResolver, entries: Seq<(int, Seq<char>)>) -> bool {
    forall|id: int| #[trigger] last_value(entries, id) matches Some(t) ==> res.has_labels(id)
        && res.spec_labels(id) == normalized_id_value(t)
}

/// The entries read, as ids and texts.
pub open spec fn id_entry_views(v: Seq<(i32, String)>) -> Seq<(int, Seq<char>)> {
    v.map_values(|p: (i32, String)| (p.0 as int, p.1@))
}

/// One id table: a 16-bit entry count, then for each entry a 16-bit id and a
/// zero-terminated string, all before `limit`.
pub fn read_id_string_table(bytes: &[u8], cursor: &mut usize, limit: usize) -> (r: Result<Vec<(i32, String)>>)
    requires
        limit <= bytes@.len(),
    ensures
        r matches Ok(v) ==> forall|k: int| 0 <= k < v@.len() ==> 0 <= #[trigger] v@[k].0 < 65536,
        r matches Err(e) ==> e is InvalidDictionary,
        r is Ok <==> id_table_at(bytes@, *old(cursor) as int, limit as int) is Some,
        r matches Ok(v) ==> id_table_at(bytes@, *old(cursor) as int, limit as int) == Some((id_entry_views(v@), *final(cursor) as int)),
{
    if *cursor > limit || limit - *cursor < 2 {
        return Err(past_limit("id string table size", *cursor, 2, limit));
    }
    let c = *cursor;
    let entries: usize = (bytes[c] as usize) * 256 + bytes[c + 1] as usize;
    *cursor = c + 2;
    let ghost whole = id_entries_at(bytes@, c + 2, limit as int, entries as nat);
    let ghost c0 = c as int;
    assert(id_table_at(bytes@, c0, limit as int) == whole);
    let mut result: Vec<(i32, String)> = Vec::new();
    let mut i: usize = 0;
    proof {
        assert(id_entry_views(result@) =~= Seq::<(int, Seq<char>)>::empty());
        match id_entries_at(bytes@, *cursor as int, limit as int, entries as nat) {
            Some((rest, end)) => {
                assert(Seq::<(int, Seq<char>)>::empty() + rest =~= rest);
            },
            None => {},
        }
    }
    while i < entries
        invariant
            limit <= bytes@.len(),
            i <= entries,
            forall|k: int| 0 <= k < result@.len() ==> 0 <= #[trigger] result@[k].0 < 65536,
            id_table_at(bytes@, c0, limit as int) == whole,
            c0 == *old(cursor) as int,
            whole == match id_entries_at(bytes@, *cursor as int, limit as int, (entries - i) as nat) {
                Some((rest, end)) => Some((id_entry_views(result@) + rest, end)),
                None => None::<(Seq<(int, Seq<char>)>, int)>,
            },
        decreases entries - i,
    {
        if *cursor > limit || limit - *cursor < 2 {
            proof {
                assert(id_entries_at(bytes@, *cursor as int, limit as int, (entries - i) as nat) is None);
            }
            return Err(past_limit("id string table id", *cursor, 2, limit));
        }
        let c = *cursor;
        let id: i32 = (bytes[c] as i32) * 256 + bytes[c + 1] as i32;
        let read = read_c_string_at_limit(bytes, c + 2, limit, "id string value");
        proof {
            if read is Err {
                assert(c_string_before(bytes@, c + 2, limit as int) is None);
                assert(id_entries_at(bytes@, c as int, limit as int, (entries - i) as nat) is None);
            }
        }
        let (value, next) = read?;
        let ghost before = result@;
        proof {
            lemma_c_string_before(bytes@, c + 2, limit as int, value@, next as int);
        }
        result.push((id, value));
        *cursor = next;
        i = i + 1;
        proof {
            let e = (id as int, value@);
            assert(id_entry_views(result@) =~= id_entry_views(before).push(e));
            match id_entries_at(bytes@, next as int, limit as int, (entries - i) as nat) {
                Some((rest, end)) => {
                    assert(id_entry_views(before) + (seq![e] + rest) =~= id_entry_views(result@) + rest);
                },
                None => {},
            }
        }
    }
    proof {
        assert(id_entries_at(bytes@, *cursor as int, limit as int, 0) == Some((Seq::<(int, Seq<char>)>::empty(), *cursor as int)));
        assert(id_entry_views(result@) + Seq::<(int, Seq<char>)>::empty() =~= id_entry_views(result@));
    }
    Ok(result)
}

} // verus!
