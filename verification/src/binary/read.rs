//! Bounds-checked readers for the big-endian integers, zero-terminated
//! strings and length-prefixed payloads of the dictionary format.
use vstd::prelude::*;
use vstd::utf8::*;
use crate::error::{Error, Result};
use crate::text::{decimal, decimal_string, hex_padded, hex_string, push_str, string_from_utf8};

verus! {

pub open spec fn be_u16(s: Seq<u8>, i: int) -> int {
    s[i] as int * 256 + s[i + 1] as int
}

pub open spec fn be_u24(s: Seq<u8>, i: int) -> int {
    s[i] as int * 65536 + s[i + 1] as int * 256 + s[i + 2] as int
}

pub open spec fn be_u32(s: Seq<u8>, i: int) -> int {
    s[i] as int * 16777216 + s[i + 1] as int * 65536 + s[i + 2] as int * 256 + s[i + 3] as int
}

/// An `InvalidDictionary` error whose message is the two parts joined.
pub fn dict_error(a: &str, b: &str) -> (e: Error)
    ensures
        e matches Error::InvalidDictionary(m) && m@ == a@ + b@,
{
    let mut m = a.to_owned();
    push_str(&mut m, b);
    Error::InvalidDictionary(m)
}

/// An `InvalidDictionary` error whose message is `a`, then `n` in decimal,
/// then `b`.
pub fn dict_error_num(a: &str, n: u64, b: &str) -> (e: Error)
    ensures
        e matches Error::InvalidDictionary(m) && m@ == a@ + decimal(n as nat) + b@,
{
    let mut m = a.to_owned();
    push_str(&mut m, decimal_string(n).as_str());
    push_str(&mut m, b);
    Error::InvalidDictionary(m)
}

/// An `InvalidDictionary` error whose message is `a`, `n` in decimal, `b`,
/// `k` in decimal, then `c`.
pub fn dict_error_nums(a: &str, n: u64, b: &str, k: u64, c: &str) -> (e: Error)
    ensures
        e matches Error::InvalidDictionary(m) && m@ == a@ + decimal(n as nat) + b@ + decimal(k as nat) + c@,
{
    let mut m = a.to_owned();
    push_str(&mut m, decimal_string(n).as_str());
    push_str(&mut m, b);
    push_str(&mut m, decimal_string(k).as_str());
    push_str(&mut m, c);
    Error::InvalidDictionary(m)
}

/// The error for a file that does not start with the dictionary magic
/// number, which it shows in hexadecimal.
pub fn bad_magic(magic: u32) -> (e: Error)
    ensures
        e matches Error::InvalidDictionary(m) && m@ == "invalid dictionary magic: 0x"@ + hex_padded(magic as nat, 8),
{
    let mut m = "invalid dictionary magic: 0x".to_owned();
    push_str(&mut m, hex_string(magic, 8).as_str());
    Error::InvalidDictionary(m)
}

/// The error for a section that ends before its declared end.
pub fn truncated(section: &str) -> (e: Error)
    ensures
        e is InvalidDictionary,
{
    dict_error("truncated ", section)
}

/// The message for a section that needs `required` bytes of `got`.
pub open spec fn truncated_message(section: Seq<char>, required: nat, got: nat) -> Seq<char> {
    "truncated "@ + section + ": need at least "@ + decimal(required) + " bytes, got "@ + decimal(got)
}

/// The error for a section that needs `base + extra` bytes where there are
/// only `got`.
pub fn truncated_at(section: &str, base: usize, extra: usize, got: usize) -> (e: Error)
    ensures
        e matches Error::InvalidDictionary(m) && m@ == truncated_message(section@,
            if base + extra <= u64::MAX { (base + extra) as nat } else { u64::MAX as nat }, got as nat),
{
    let required = (base as u64).saturating_add(extra as u64);
    let mut m = "truncated ".to_owned();
    push_str(&mut m, section);
    push_str(&mut m, ": need at least ");
    push_str(&mut m, decimal_string(required).as_str());
    push_str(&mut m, " bytes, got ");
    push_str(&mut m, decimal_string(got as u64).as_str());
    proof {
        reveal_strlit("truncated ");
        reveal_strlit(": need at least ");
        reveal_strlit(" bytes, got ");
    }
    Error::InvalidDictionary(m)
}

/// The message for an offset `required` past the metadata `limit`.
pub open spec fn past_limit_message(section: Seq<char>, required: nat, limit: nat) -> Seq<char> {
    "truncated "@ + section + ": need offset "@ + decimal(required) + ", metadata limit is "@ + decimal(limit)
}

/// The error for an offset past the metadata limit.
pub fn past_limit(section: &str, base: usize, extra: usize, limit: usize) -> (e: Error)
    ensures
        e matches Error::InvalidDictionary(m) && m@ == past_limit_message(section@,
            if base + extra <= u64::MAX { (base + extra) as nat } else { u64::MAX as nat }, limit as nat),
{
    let required = (base as u64).saturating_add(extra as u64);
    let mut m = "truncated ".to_owned();
    push_str(&mut m, section);
    push_str(&mut m, ": need offset ");
    push_str(&mut m, decimal_string(required).as_str());
    push_str(&mut m, ", metadata limit is ");
    push_str(&mut m, decimal_string(limit as u64).as_str());
    proof {
        reveal_strlit("truncated ");
        reveal_strlit(": need offset ");
        reveal_strlit(", metadata limit is ");
    }
    Error::InvalidDictionary(m)
}

pub fn validate_min_len(bytes: &[u8], required: usize, section: &str) -> (r: Result<()>)
    ensures
        r is Ok <==> bytes@.len() >= required,
        r matches Err(e) ==> e matches Error::InvalidDictionary(m)
            && m@ == truncated_message(section@, required as nat, bytes@.len()),
{
    if bytes.len() < required {
        Err(truncated_at(section, required, 0, bytes.len()))
    } else {
        Ok(())
    }
}

/// `required` lies within both the metadata limit and the bytes.
pub fn validate_limit(bytes: &[u8], required: usize, limit: usize, section: &str) -> (r: Result<()>)
    ensures
        r is Ok <==> (required <= limit && required <= bytes@.len()),
        r matches Err(e) ==> e is InvalidDictionary,
{
    if required > limit || required > bytes.len() {
        Err(past_limit(section, required, 0, limit))
    } else {
        Ok(())
    }
}

pub fn read_u32_at(bytes: &[u8], offset: usize, field: &str) -> (r: Result<u32>)
    ensures
        r is Ok <==> offset + 4 <= bytes@.len(),
        r matches Ok(v) ==> v as int == be_u32(bytes@, offset as int),
        r matches Err(e) ==> e is InvalidDictionary,
{
    if offset > bytes.len() || bytes.len() - offset < 4 {
        return Err(truncated_at(field, offset, 4, bytes.len()));
    }
    let v: u32 = (bytes[offset] as u32) * 16777216 + (bytes[offset + 1] as u32) * 65536
        + (bytes[offset + 2] as u32) * 256 + bytes[offset + 3] as u32;
    Ok(v)
}

pub fn read_u24_at(bytes: &[u8], offset: usize, field: &str) -> (r: Result<usize>)
    ensures
        r is Ok <==> offset + 3 <= bytes@.len(),
        r matches Ok(v) ==> v as int == be_u24(bytes@, offset as int),
        r matches Err(e) ==> e is InvalidDictionary,
{
    if offset > bytes.len() || bytes.len() - offset < 3 {
        return Err(truncated_at(field, offset, 3, bytes.len()));
    }
    let v: usize = (bytes[offset] as usize) * 65536 + (bytes[offset + 1] as usize) * 256
        + bytes[offset + 2] as usize;
    Ok(v)
}

/// `offset..end` holds no zero byte and `end` is the first zero at or after
/// `offset`.
pub open spec fn c_string_end(s: Seq<u8>, offset: int, end: int) -> bool {
    &&& offset <= end < s.len()
    &&& s[end] == 0
    &&& forall|k: int| offset <= k < end ==> s[k] != 0
}

/// The zero-terminated string starting at `offset` and ending before
/// `limit`: its text and the offset just past its terminator.
pub open spec fn c_string_read_ok(s: Seq<u8>, offset: int, limit: int, text: Seq<char>, next: int) -> bool {
    &&& offset <= limit <= s.len()
    &&& c_string_end(s, offset, next - 1)
    &&& next - 1 < limit
    &&& valid_utf8(s.subrange(offset, next - 1))
    &&& text == decode_utf8(s.subrange(offset, next - 1))
}

/// Whether a zero-terminated UTF-8 string starts at `offset` and ends before
/// `limit`.
pub open spec fn c_string_readable(s: Seq<u8>, offset: int, limit: int) -> bool {
    &&& offset <= limit <= s.len()
    &&& exists|end: int| offset <= end < limit && c_string_end(s, offset, end)
        && valid_utf8(s.subrange(offset, end))
}

/// The zero-terminated string at `offset`, read up to the end of the data:
/// its text and the offset just past its terminator.
pub open spec fn c_string_at(s: Seq<u8>, offset: int) -> Option<(Seq<char>, int)> {
    if c_string_readable(s, offset, s.len() as int) {
        Some(choose|p: (Seq<char>, int)| c_string_read_ok(s, offset, s.len() as int, p.0, p.1))
    } else {
        None
    }
}

/// A string read at `offset` is the one `c_string_at` names.
pub proof fn lemma_c_string_at(s: Seq<u8>, offset: int, text: Seq<char>, next: int)
    requires
        c_string_read_ok(s, offset, s.len() as int, text, next),
    ensures
        c_string_at(s, offset) == Some((text, next)),
{
    let end = next - 1;
    assert(offset <= end < s.len() as int && c_string_end(s, offset, end) && valid_utf8(s.subrange(offset, end)));
    assert(c_string_readable(s, offset, s.len() as int));
    assert(c_string_read_ok(s, offset, s.len() as int, (text, next).0, (text, next).1));
    let p = choose|p: (Seq<char>, int)| c_string_read_ok(s, offset, s.len() as int, p.0, p.1);
    let e2 = p.1 - 1;
    if e2 < end {
        assert(s[e2] != 0);
    }
    if end < e2 {
        assert(s[end] != 0);
    }
    assert(e2 == end);
}

pub fn read_c_string_at_limit(bytes: &[u8], offset: usize, limit: usize, field: &str) -> (r: Result<(String, usize)>)
    ensures
        r is Ok <==> c_string_readable(bytes@, offset as int, limit as int),
        r matches Ok((text, next)) ==> c_string_read_ok(bytes@, offset as int, limit as int, text@, next as int),
        r matches Err(e) ==> e is InvalidDictionary,
{
    if offset > limit || limit > bytes.len() {
        return Err(dict_error(field, " offset is outside metadata"));
    }
    let mut end: usize = offset;
    while end < limit && bytes[end] != 0
        invariant
            offset <= end <= limit <= bytes@.len(),
            forall|k: int| offset <= k < end ==> bytes@[k] != 0,
        decreases limit - end,
    {
        end = end + 1;
    }
    if end == limit {
        proof {
            assert forall|e2: int| offset <= e2 < limit implies !c_string_end(bytes@, offset as int, e2) by {
                assert(bytes@[e2] != 0);
            }
        }
        return Err(dict_error("unterminated ", field));
    }
    let mut value_bytes: Vec<u8> = Vec::new();
    let mut k: usize = offset;
    while k < end
        invariant
            offset <= k <= end < bytes@.len(),
            value_bytes@ == bytes@.subrange(offset as int, k as int),
        decreases end - k,
    {
        value_bytes.push(bytes[k]);
        k = k + 1;
        assert(value_bytes@ =~= bytes@.subrange(offset as int, k as int));
    }
    proof {
        assert forall|e2: int| offset <= e2 < limit && c_string_end(bytes@, offset as int, e2) implies e2 == end by {
            if e2 < end {
                assert(bytes@[e2] != 0);
            }
            if e2 > end {
                assert(bytes@[end as int] != 0);
            }
        }
    }
    assert(c_string_end(bytes@, offset as int, end as int));
    match string_from_utf8(value_bytes) {
        Some(text) => {
            assert(valid_utf8(bytes@.subrange(offset as int, end as int)));
            assert(c_string_readable(bytes@, offset as int, limit as int));
            Ok((text, end + 1))
        },
        None => {
            proof {
                if c_string_readable(bytes@, offset as int, limit as int) {
                    let e2 = choose|e2: int| offset <= e2 < limit && c_string_end(bytes@, offset as int, e2)
                        && valid_utf8(bytes@.subrange(offset as int, e2));
                    assert(e2 == end);
                }
            }
            Err(dict_error(field, " is not valid UTF-8"))
        },
    }
}

pub fn read_c_string_at(bytes: &[u8], offset: usize, field: &str) -> (r: Result<(String, usize)>)
    ensures
        r is Ok <==> c_string_readable(bytes@, offset as int, bytes@.len() as int),
        r matches Ok((text, next)) ==> c_string_read_ok(bytes@, offset as int, bytes@.len() as int, text@, next as int),
        r matches Err(e) ==> e is InvalidDictionary,
{
    read_c_string_at_limit(bytes, offset, bytes.len(), field)
}

/// Reads the zero-terminated string at the cursor and moves past it.
pub fn read_c_string_from_slice(data: &[u8], cursor: &mut usize, field: &str) -> (r: Result<String>)
    ensures
        r is Ok <==> c_string_readable(data@, *old(cursor) as int, data@.len() as int),
        r matches Ok(text) ==> c_string_read_ok(data@, *old(cursor) as int, data@.len() as int, text@, *final(cursor) as int),
        r is Err ==> *final(cursor) == *old(cursor),
        r matches Err(e) ==> e is InvalidDictionary,
{
    let (value, next) = read_c_string_at_limit(data, *cursor, data.len(), field)?;
    *cursor = next;
    Ok(value)
}

pub fn read_u8(data: &[u8], cursor: &mut usize, field: &str) -> (r: Result<u8>)
    ensures
        r is Ok <==> *old(cursor) + 1 <= data@.len(),
        r matches Ok(v) ==> v == data@[*old(cursor) as int] && *final(cursor) == *old(cursor) + 1,
        r is Err ==> *final(cursor) == *old(cursor),
        r matches Err(e) ==> e is InvalidDictionary,
{
    if *cursor >= data.len() {
        return Err(truncated_at(field, *cursor, 1, data.len()));
    }
    let value = data[*cursor];
    *cursor = *cursor + 1;
    Ok(value)
}

pub fn read_u16(data: &[u8], cursor: &mut usize, field: &str) -> (r: Result<u16>)
    ensures
        r is Ok <==> *old(cursor) + 2 <= data@.len(),
        r matches Ok(v) ==> v as int == be_u16(data@, *old(cursor) as int) && *final(cursor) == *old(cursor) + 2,
        r is Err ==> *final(cursor) == *old(cursor),
        r matches Err(e) ==> e is InvalidDictionary,
{
    if *cursor > data.len() || data.len() - *cursor < 2 {
        return Err(truncated_at(field, *cursor, 2, data.len()));
    }
    let c = *cursor;
    let value: u16 = (data[c] as u16) * 256 + data[c + 1] as u16;
    *cursor = c + 2;
    Ok(value)
}

pub fn read_u32(data: &[u8], cursor: &mut usize, field: &str) -> (r: Result<u32>)
    ensures
        r is Ok <==> *old(cursor) + 4 <= data@.len(),
        r matches Ok(v) ==> v as int == be_u32(data@, *old(cursor) as int) && *final(cursor) == *old(cursor) + 4,
        r is Err ==> *final(cursor) == *old(cursor),
        r matches Err(e) ==> e is InvalidDictionary,
{
    let n = data.len();
    match read_u32_at(data, *cursor, field) {
        Ok(value) => {
            *cursor = *cursor + 4;
            Ok(value)
        },
        Err(e) => Err(e),
    }
}

/// A length-prefixed payload at `offset`: a big-endian 16-bit size followed
/// by that many bytes; the payload and the record's size.
pub open spec fn morph_payload_ok(data: Seq<u8>, offset: int, value: Seq<u8>, record: int) -> bool {
    &&& offset + 2 + be_u16(data, offset) <= data.len()
    &&& value == data.subrange(offset + 2, offset + 2 + be_u16(data, offset))
    &&& record == be_u16(data, offset) + 2
}

pub open spec fn morph_payload_fits(data: Seq<u8>, offset: int) -> bool {
    offset + 2 <= data.len() && offset + 2 + be_u16(data, offset) <= data.len()
}

pub fn read_morph_payload<'a>(data: &'a [u8], offset: usize) -> (r: Result<(&'a [u8], usize)>)
    ensures
        r is Ok <==> morph_payload_fits(data@, offset as int),
        r matches Ok((value, record)) ==> morph_payload_ok(data@, offset as int, value@, record as int),
        r matches Err(e) ==> e is InvalidDictionary,
{
    if offset > data.len() || data.len() - offset < 2 {
        return Err(truncated_at("morph payload size", offset, 2, data.len()));
    }
    let size: usize = (data[offset] as usize) * 256 + data[offset + 1] as usize;
    let value_start = offset + 2;
    if data.len() - value_start < size {
        return Err(truncated_at("morph payload", value_start, size, data.len()));
    }
    let value_end = value_start + size;
    Ok((vstd::slice::slice_subrange(data, value_start, value_end), size + 2))
}

/// The offset encoded by the variable-length continuation bytes starting at
/// `cursor`, given the value `acc` read so far: each byte shifts the value by
/// seven bits (bits shifted past the top are lost) and adds its low seven
/// bits; a byte without the high bit ends the offset. `None` when the bytes
/// run out or an addition overflows; otherwise the value and the cursor past
/// the last byte.
pub open spec fn v2_ext_offset(data: Seq<u8>, cursor: int, acc: usize) -> Option<(usize, int)>
    decreases data.len() - cursor,
{
    if cursor < 0 || cursor >= data.len() {
        None
    } else {
        let b = data[cursor];
        let sum = ((acc << 7usize) as int) + ((b & 0x7f) as int);
        if sum > usize::MAX {
            None
        } else if b & 0x80 == 0 {
            Some((sum as usize, cursor + 1))
        } else {
            v2_ext_offset(data, cursor + 1, sum as usize)
        }
    }
}

/// The VLength2 offset at `cursor`: the low five bits of the first byte,
/// extended by continuation bytes when its high bit is set.
pub open spec fn v2_offset(data: Seq<u8>, cursor: int) -> Option<(usize, int)> {
    if cursor < 0 || cursor >= data.len() {
        None
    } else {
        let first = data[cursor];
        let base = (first & 0x1f) as usize;
        if first & 0x80 == 0 {
            Some((base, cursor + 1))
        } else {
            v2_ext_offset(data, cursor + 1, base)
        }
    }
}

pub fn read_vlength2_offset(data: &[u8], cursor: &mut usize) -> (r: Result<usize>)
    ensures
        r is Ok <==> v2_offset(data@, *old(cursor) as int) is Some,
        r matches Ok(v) ==> v2_offset(data@, *old(cursor) as int) == Some((v, *final(cursor) as int)),
        r matches Err(e) ==> e is InvalidDictionary,
{
    if *cursor >= data.len() {
        return Err(truncated_at("VLength2 offset", *cursor, 1, data.len()));
    }
    let first = data[*cursor];
    *cursor = *cursor + 1;
    let mut offset: usize = (first & 0x1f) as usize;
    if first & 0x80 != 0 {
        loop
            invariant_except_break
                *cursor <= data@.len(),
                v2_offset(data@, *old(cursor) as int) == v2_ext_offset(data@, *cursor as int, offset),
            ensures
                v2_offset(data@, *old(cursor) as int) == Some((offset, *cursor as int)),
            decreases data@.len() - *cursor,
        {
            if *cursor >= data.len() {
                return Err(truncated_at("VLength2 extended offset", *cursor, 1, data.len()));
            }
            let byte = data[*cursor];
            *cursor = *cursor + 1;
            let shifted: usize = offset << 7usize;
            let low: usize = (byte & 0x7f) as usize;
            if shifted > usize::MAX - low {
                return Err(dict_error("VLength2 offset overflow", ""));
            }
            offset = shifted + low;
            if byte & 0x80 == 0 {
                break;
            }
        }
    }
    Ok(offset)
}

/// The big-endian offset of `size` bytes (0 to 3) at `cursor`.
pub open spec fn v1_offset(data: Seq<u8>, cursor: int, size: int) -> int {
    if size == 0 {
        0
    } else if size == 1 {
        data[cursor] as int
    } else if size == 2 {
        data[cursor] as int * 256 + data[cursor + 1] as int
    } else {
        be_u24(data, cursor)
    }
}

pub fn read_vlength1_offset_at(data: &[u8], cursor: usize, size: usize) -> (r: usize)
    requires
        size <= 3,
        cursor + size <= data@.len(),
    ensures
        r as int == v1_offset(data@, cursor as int, size as int),
{
    if size == 0 {
        0
    } else if size == 1 {
        data[cursor] as usize
    } else if size == 2 {
        (data[cursor] as usize) * 256 + data[cursor + 1] as usize
    } else {
        (data[cursor] as usize) * 65536 + (data[cursor + 1] as usize) * 256 + data[cursor + 2] as usize
    }
}

} // verus!
