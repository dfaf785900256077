//! The binary entry format.
//!
//! Every entry is a 13-byte header followed by a payload:
//! `[length: u64 LE][checksum: u32 LE][tag: u8][payload]`, where `length`
//! counts the checksum, the tag and the payload (so the entry spans
//! `8 + length` bytes) and `checksum` is the CRC-32/ISO-HDLC of the payload.
//! Payloads: an integer is its 8 little-endian bytes, a bool one byte
//! (0 or 1), a text or a blob an 8-byte little-endian length and then its
//! bytes (UTF-8 for text).

use vstd::prelude::*;
use vstd::bytes::{
    spec_u32_from_le_bytes, spec_u32_to_le_bytes, spec_u64_from_le_bytes, spec_u64_to_le_bytes,
    u32_from_le_bytes, u32_to_le_bytes, u64_from_le_bytes, u64_to_le_bytes,
    lemma_auto_spec_u32_to_from_le_bytes, lemma_auto_spec_u64_to_from_le_bytes,
};
use vstd::slice::slice_to_vec;
use vstd::string::StringSliceAdditionalSpecFns;
use vstd::utf8::{
    decode_utf8, decode_utf8_encode_utf8, encode_utf8, valid_utf8, encode_utf8_decode_utf8,
    encode_utf8_valid_utf8,
};
use crate::checksum::{crc32_checksum, crc32_iso_hdlc, lemma_crc_catches_one_byte};
use crate::error::DecodeError;
use crate::values::{BorrowedValue, OwnedValue, ValueModel};

verus! {

/// Bytes of the length field.
pub const LEN_BYTES: usize = 8;
/// Bytes of the checksum field.
pub const CHECKSUM_BYTES: usize = 4;
/// Bytes of the tag field.
pub const TAG_BYTES: usize = 1;
/// Bytes of the whole header.
pub const HEADER_SIZE: usize = LEN_BYTES + CHECKSUM_BYTES + TAG_BYTES;

/// The kind of value an entry holds.
#[derive(Copy, Clone, Debug, PartialEq, Eq, Structural)]
pub enum TypeTag {
    Integer,
    Text,
    Bool,
    Blob,
}

/// The tag byte of each kind.
pub open spec fn tag_byte(t: TypeTag) -> u8 {
    match t {
        TypeTag::Integer => 0,
        TypeTag::Text => 1,
        TypeTag::Bool => 2,
        TypeTag::Blob => 3,
    }
}

impl TypeTag {
    /// The kind that a tag byte names, if any.
    pub fn from_u8(b: u8) -> (t: Option<TypeTag>)
        ensures
            t matches Some(tag) ==> tag_byte(tag) == b,
            t is None <==> b > 3,
    {
        match b {
            0 => Some(TypeTag::Integer),
            1 => Some(TypeTag::Text),
            2 => Some(TypeTag::Bool),
            3 => Some(TypeTag::Blob),
            _ => None,
        }
    }

    /// The tag byte of this kind.
    pub fn to_u8(self) -> (b: u8)
        ensures
            b == tag_byte(self),
    {
        match self {
            TypeTag::Integer => 0,
            TypeTag::Text => 1,
            TypeTag::Bool => 2,
            TypeTag::Blob => 3,
        }
    }
}

/// The fixed header in front of every payload.
#[derive(Copy, Clone, Debug, PartialEq, Eq)]
pub struct RawHeader {
    pub length: u64,
    pub checksum: u32,
    pub tag: u8,
}

/// The 13 bytes of a header.
pub open spec fn header_bytes(h: RawHeader) -> Seq<u8> {
    spec_u64_to_le_bytes(h.length) + spec_u32_to_le_bytes(h.checksum) + seq![h.tag]
}

/// The header read from the first 13 bytes of `data`.
pub open spec fn header_of(data: Seq<u8>) -> RawHeader
    recommends
        data.len() >= 13,
{
    RawHeader {
        length: spec_u64_from_le_bytes(data.subrange(0, 8)),
        checksum: spec_u32_from_le_bytes(data.subrange(8, 12)),
        tag: data[12],
    }
}

/// A header written out is read back unchanged, whatever follows it.
pub proof fn lemma_header_roundtrip(h: RawHeader, rest: Seq<u8>)
    ensures
        header_bytes(h).len() == 13,
        header_of(header_bytes(h) + rest) == h,
{
    lemma_auto_spec_u64_to_from_le_bytes();
    lemma_auto_spec_u32_to_from_le_bytes();
    let b = header_bytes(h) + rest;
    assert(b.subrange(0, 8) =~= spec_u64_to_le_bytes(h.length));
    assert(b.subrange(8, 12) =~= spec_u32_to_le_bytes(h.checksum));
}

/// Appends the 13 bytes of `header` to `out`.
pub fn serialize_header(header: &RawHeader, out: &mut Vec<u8>)
    ensures
        final(out)@ == old(out)@ + header_bytes(*header),
{
    let mut length_bytes = u64_to_le_bytes(header.length);
    let mut checksum_bytes = u32_to_le_bytes(header.checksum);
    out.append(&mut length_bytes);
    out.append(&mut checksum_bytes);
    out.push(header.tag);
    assert(final(out)@ =~= old(out)@ + header_bytes(*header));
}

/// Reads the header at the start of `data`.
pub fn deserialize_header(data: &[u8]) -> (r: Result<RawHeader, DecodeError>)
    ensures
        r == (if data@.len() < 13 {
            Err(DecodeError::SliceTooShortForHeader)
        } else {
            Ok::<RawHeader, DecodeError>(header_of(data@))
        }),
{
    if data.len() < HEADER_SIZE {
        return Err(DecodeError::SliceTooShortForHeader);
    }
    let length = u64_from_le_bytes(&data[0..8]);
    let checksum = u32_from_le_bytes(&data[8..12]);
    Ok(RawHeader { length, checksum, tag: data[12] })
}

/// The payload of a value.
pub open spec fn payload_of(v: ValueModel) -> Seq<u8> {
    match v {
        ValueModel::Integer(x) => spec_u64_to_le_bytes(x as u64),
        ValueModel::Bool(b) => seq![if b { 1u8 } else { 0u8 }],
        ValueModel::Text(s) => spec_u64_to_le_bytes(encode_utf8(s).len() as u64) + encode_utf8(s),
        ValueModel::Blob(b) => spec_u64_to_le_bytes(b.len() as u64) + b,
    }
}

/// The kind of a value.
pub open spec fn tag_of(v: ValueModel) -> TypeTag {
    match v {
        ValueModel::Integer(_) => TypeTag::Integer,
        ValueModel::Bool(_) => TypeTag::Bool,
        ValueModel::Text(_) => TypeTag::Text,
        ValueModel::Blob(_) => TypeTag::Blob,
    }
}

/// The number of payload bytes of a value.
pub open spec fn payload_len(v: ValueModel) -> nat {
    match v {
        ValueModel::Integer(_) => 8,
        ValueModel::Bool(_) => 1,
        ValueModel::Text(s) => 8 + encode_utf8(s).len(),
        ValueModel::Blob(b) => 8 + b.len(),
    }
}

/// The number of bytes of the whole encoded entry of a value.
pub open spec fn encoded_size(v: ValueModel) -> nat {
    13 + payload_len(v)
}

/// The header written in front of the payload of a value.
pub open spec fn header_for(v: ValueModel) -> RawHeader {
    RawHeader {
        length: (5 + payload_of(v).len()) as u64,
        checksum: crc32_iso_hdlc(payload_of(v)),
        tag: tag_byte(tag_of(v)),
    }
}

/// The encoded entry of a value: its header, then its payload.
pub open spec fn encode_value(v: ValueModel) -> Seq<u8> {
    header_bytes(header_for(v)) + payload_of(v)
}

/// What a payload decodes to under a tag byte.
pub open spec fn decode_payload(tag: u8, p: Seq<u8>) -> Result<ValueModel, DecodeError> {
    if tag == 0 {
        if p.len() < 8 {
            Err(DecodeError::MissingIntegerPayload)
        } else {
            Ok(ValueModel::Integer(spec_u64_from_le_bytes(p.subrange(0, 8)) as i64))
        }
    } else if tag == 2 {
        if p.len() == 0 {
            Err(DecodeError::MissingBoolPayload)
        } else {
            Ok(ValueModel::Bool(p[0] != 0))
        }
    } else if tag == 1 {
        if p.len() < 8 {
            Err(DecodeError::MissingTextLength)
        } else if p.len() < 8 + spec_u64_from_le_bytes(p.subrange(0, 8)) {
            Err(DecodeError::MissingTextPayload)
        } else {
            let t = p.subrange(8, 8 + spec_u64_from_le_bytes(p.subrange(0, 8)));
            if valid_utf8(t) {
                Ok(ValueModel::Text(decode_utf8(t)))
            } else {
                Err(DecodeError::InvalidUtf8)
            }
        }
    } else if tag == 3 {
        if p.len() < 8 {
            Err(DecodeError::MissingBlobLength)
        } else if p.len() < 8 + spec_u64_from_le_bytes(p.subrange(0, 8)) {
            Err(DecodeError::MissingBlobPayload)
        } else {
            Ok(ValueModel::Blob(p.subrange(8, 8 + spec_u64_from_le_bytes(p.subrange(0, 8)))))
        }
    } else {
        Err(DecodeError::UnknownTypeTag(tag))
    }
}

/// What the entry at the start of `data` decodes to.
pub open spec fn decode_value(data: Seq<u8>) -> Result<ValueModel, DecodeError> {
    if data.len() < 13 {
        Err(DecodeError::SliceTooShortForHeader)
    } else if data.len() < 8 + header_of(data).length {
        Err(DecodeError::EntryTruncated)
    } else if header_of(data).length < 5 {
        Err(DecodeError::PayloadTruncated)
    } else {
        let p = data.subrange(13, 8 + header_of(data).length);
        if crc32_iso_hdlc(p) != header_of(data).checksum {
            Err(DecodeError::ChecksumMismatch {
                computed: crc32_iso_hdlc(p),
                stored: header_of(data).checksum,
            })
        } else {
            decode_payload(header_of(data).tag, p)
        }
    }
}

/// The entry at the start of `data`, with the number of bytes it spans:
/// `None` when the data ends before the entry does.
pub open spec fn parse_entry_spec(data: Seq<u8>) -> Result<Option<(ValueModel, nat)>, DecodeError> {
    if data.len() < 13 {
        Ok(None)
    } else if data.len() < 8 + header_of(data).length {
        Ok(None)
    } else {
        match decode_value(data.subrange(0, 8 + header_of(data).length)) {
            Ok(v) => Ok(Some((v, (8 + header_of(data).length) as nat))),
            Err(e) => Err(e),
        }
    }
}

/// The model of a decode result.
pub open spec fn view_decoded<'a>(r: Result<BorrowedValue<'a>, DecodeError>) -> Result<ValueModel, DecodeError> {
    match r {
        Ok(v) => Ok(v@),
        Err(e) => Err(e),
    }
}

/// The model of a parse result.
pub open spec fn view_parsed<'a>(r: Result<Option<(BorrowedValue<'a>, usize)>, DecodeError>) -> Result<Option<(ValueModel, nat)>, DecodeError> {
    match r {
        Ok(Some((v, used))) => Ok(Some((v@, used as nat))),
        Ok(None) => Ok(None),
        Err(e) => Err(e),
    }
}

/// A parsed entry spans at least its header and at most the data.
pub proof fn lemma_parse_entry_span(data: Seq<u8>)
    ensures
        parse_entry_spec(data) matches Ok(Some((v, used))) ==> 13 <= used <= data.len(),
{
    if data.len() >= 13 && data.len() >= 8 + header_of(data).length {
        let d = data.subrange(0, 8 + header_of(data).length);
        if d.len() >= 13 {
            assert(header_of(d) == header_of(data)) by {
                assert(d.subrange(0, 8) =~= data.subrange(0, 8));
                assert(d.subrange(8, 12) =~= data.subrange(8, 12));
            }
        }
    }
}

/// A parsed value's own encoding is no longer than the entry it was read from.
pub proof fn lemma_decoded_size(data: Seq<u8>)
    ensures
        parse_entry_spec(data) matches Ok(Some((v, used))) ==> encoded_size(v) <= used,
{
    if data.len() >= 13 && data.len() >= 8 + header_of(data).length {
        let n = 8 + header_of(data).length;
        let d = data.subrange(0, n);
        if d.len() >= 13 {
            lemma_decode_prefix(data, n);
            if header_of(data).length >= 5 {
                let p = d.subrange(13, n);
                let t = header_of(data).tag;
                if t == 1 && p.len() >= 8 && p.len() >= 8 + spec_u64_from_le_bytes(p.subrange(0, 8)) {
                    let tb = p.subrange(8, 8 + spec_u64_from_le_bytes(p.subrange(0, 8)));
                    if valid_utf8(tb) {
                        decode_utf8_encode_utf8(tb);
                    }
                }
            }
        }
    }
}

/// Flipping every bit of one payload byte of an entry that decodes is caught
/// by its checksum: the entry then reports a checksum mismatch.
pub proof fn law_payload_flip_detected(d: Seq<u8>, j: int)
    requires
        decode_value(d) is Ok,
        13 <= j < 8 + header_of(d).length,
    ensures
        decode_value(d.update(j, d[j] ^ 0xffu8)) matches Err(DecodeError::ChecksumMismatch { .. }),
{
    let b = d[j];
    let d2 = d.update(j, b ^ 0xffu8);
    assert(d2.subrange(0, 8) =~= d.subrange(0, 8));
    assert(d2.subrange(8, 12) =~= d.subrange(8, 12));
    assert(header_of(d2) == header_of(d));
    let end = 8 + header_of(d).length;
    let p = d.subrange(13, end);
    let p2 = d2.subrange(13, end);
    assert(b ^ 0xffu8 != b) by (bit_vector);
    assert forall|i: int| 0 <= i < p.len() && i != j - 13 implies p[i] == p2[i] by {}
    assert(p[j - 13] != p2[j - 13]);
    lemma_crc_catches_one_byte(p, p2, j - 13);
}

/// Decoding reads no byte past the end of the entry.
pub proof fn lemma_decode_prefix(data: Seq<u8>, n: int)
    requires
        data.len() >= 13,
        13 <= n <= data.len(),
        8 + header_of(data).length <= n,
    ensures
        decode_value(data.subrange(0, n)) == decode_value(data),
        header_of(data.subrange(0, n)) == header_of(data),
{
    let d = data.subrange(0, n);
    assert(d.subrange(0, 8) =~= data.subrange(0, 8));
    assert(d.subrange(8, 12) =~= data.subrange(8, 12));
    assert(header_of(d) == header_of(data));
    if header_of(data).length >= 5 {
        assert(d.subrange(13, 8 + header_of(d).length) =~= data.subrange(13, 8 + header_of(data).length));
    }
}

/// The payload of a value has `payload_len` bytes, and its entry `encoded_size`.
pub proof fn lemma_encoded_size(v: ValueModel)
    ensures
        payload_of(v).len() == payload_len(v),
        encode_value(v).len() == encoded_size(v),
{
    lemma_auto_spec_u64_to_from_le_bytes();
    lemma_auto_spec_u32_to_from_le_bytes();
}

/// A payload decodes back to the value it encodes.
proof fn lemma_decode_payload_of(v: ValueModel)
    requires
        encoded_size(v) <= usize::MAX,
    ensures
        decode_payload(tag_byte(tag_of(v)), payload_of(v)) == Ok::<ValueModel, DecodeError>(v),
{
    lemma_auto_spec_u64_to_from_le_bytes();
    let p = payload_of(v);
    match v {
        ValueModel::Integer(x) => {
            assert(p.subrange(0, 8) =~= p);
            let u = x as u64;
            assert((u as i64) == x) by (bit_vector)
                requires u == x as u64;
        },
        ValueModel::Bool(b) => {},
        ValueModel::Text(s) => {
            let e = encode_utf8(s);
            let n = e.len() as u64;
            assert(p.subrange(0, 8) =~= spec_u64_to_le_bytes(n));
            assert(p.subrange(8, 8 + n) =~= e);
            encode_utf8_valid_utf8(s);
            encode_utf8_decode_utf8(s);
        },
        ValueModel::Blob(b) => {
            let n = b.len() as u64;
            assert(p.subrange(0, 8) =~= spec_u64_to_le_bytes(n));
            assert(p.subrange(8, 8 + n) =~= b);
        },
    }
}

/// An encoded value decodes back to itself, and parses as one entry spanning
/// exactly its encoding, whatever bytes follow it.
pub proof fn lemma_decode_encode(v: ValueModel, rest: Seq<u8>)
    requires
        encoded_size(v) <= usize::MAX,
    ensures
        encode_value(v).len() == encoded_size(v),
        decode_value(encode_value(v) + rest) == Ok::<ValueModel, DecodeError>(v),
        parse_entry_spec(encode_value(v) + rest) == Ok::<Option<(ValueModel, nat)>, DecodeError>(
            Some((v, encoded_size(v))),
        ),
{
    lemma_encoded_size(v);
    lemma_decode_payload_of(v);
    let p = payload_of(v);
    let h = header_for(v);
    let b = encode_value(v) + rest;
    assert(b =~= header_bytes(h) + (p + rest));
    lemma_header_roundtrip(h, p + rest);
    assert(h.length == 5 + p.len());
    assert(b.subrange(13, 8 + h.length) =~= p);
    let e = b.subrange(0, 8 + h.length);
    assert(e =~= encode_value(v));
    assert(e =~= header_bytes(h) + (p + Seq::<u8>::empty()));
    lemma_header_roundtrip(h, p + Seq::<u8>::empty());
    assert(e.subrange(13, 8 + h.length) =~= p);
}

/// Calls `std::str::from_utf8`. Claimed, as std documents it: the call
/// succeeds exactly on valid UTF-8, and the text it returns consists of
/// exactly the given bytes.
#[verifier::external_body]
fn str_from_utf8<'a>(bytes: &'a [u8]) -> (text: Option<&'a str>)
    ensures
        text is Some <==> valid_utf8(bytes@),
        text matches Some(s) ==> s.spec_bytes() == bytes@,
{
    std::str::from_utf8(bytes).ok()
}

/// Appends the encoded entry of `value` to `out`.
pub fn serialize_value(value: &OwnedValue, out: &mut Vec<u8>)
    requires
        encoded_size(value@) <= usize::MAX,
    ensures
        final(out)@ == old(out)@ + encode_value(value@),
{
    proof {
        lemma_auto_spec_u64_to_from_le_bytes();
        lemma_encoded_size(value@);
    }
    let mut payload: Vec<u8> = Vec::new();
    let tag: TypeTag;
    match value {
        OwnedValue::Integer(x) => {
            tag = TypeTag::Integer;
            let mut bytes = u64_to_le_bytes(*x as u64);
            payload.append(&mut bytes);
        },
        OwnedValue::Bool(b) => {
            tag = TypeTag::Bool;
            let byte: u8 = if *b { 1 } else { 0 };
            payload.push(byte);
        },
        OwnedValue::Text(s) => {
            tag = TypeTag::Text;
            let bytes = s.as_str().as_bytes();
            let mut len_bytes = u64_to_le_bytes(bytes.len() as u64);
            let mut text_bytes = slice_to_vec(bytes);
            payload.append(&mut len_bytes);
            payload.append(&mut text_bytes);
        },
        OwnedValue::Blob(v) => {
            tag = TypeTag::Blob;
            let mut len_bytes = u64_to_le_bytes(v.len() as u64);
            let mut blob_bytes = slice_to_vec(v.as_slice());
            payload.append(&mut len_bytes);
            payload.append(&mut blob_bytes);
        },
    }
    assert(payload@ =~= payload_of(value@));
    let length: u64 = (payload.len() as u64) + 5;
    let checksum = crc32_checksum(payload.as_slice());
    let header = RawHeader { length, checksum, tag: tag.to_u8() };
    assert(header == header_for(value@));
    serialize_header(&header, out);
    out.append(&mut payload);
}

/// Decodes the payload of an entry whose tag names `tag`.
fn decode_payload_exec<'a>(tag: TypeTag, payload: &'a [u8]) -> (r: Result<BorrowedValue<'a>, DecodeError>)
    ensures
        view_decoded(r) == decode_payload(tag_byte(tag), payload@),
{
    match tag {
        TypeTag::Integer => {
            if payload.len() < 8 {
                return Err(DecodeError::MissingIntegerPayload);
            }
            let x = u64_from_le_bytes(&payload[0..8]);
            Ok(BorrowedValue::Integer(x as i64))
        },
        TypeTag::Bool => {
            if payload.len() == 0 {
                return Err(DecodeError::MissingBoolPayload);
            }
            Ok(BorrowedValue::Bool(payload[0] != 0))
        },
        TypeTag::Text => {
            if payload.len() < 8 {
                return Err(DecodeError::MissingTextLength);
            }
            let n = u64_from_le_bytes(&payload[0..8]);
            if n > (payload.len() - 8) as u64 {
                return Err(DecodeError::MissingTextPayload);
            }
            let end = 8 + n as usize;
            let text_bytes = &payload[8..end];
            match str_from_utf8(text_bytes) {
                Some(s) => {
                    proof {
                        encode_utf8_decode_utf8(s@);
                    }
                    Ok(BorrowedValue::Text(s))
                },
                None => Err(DecodeError::InvalidUtf8),
            }
        },
        TypeTag::Blob => {
            if payload.len() < 8 {
                return Err(DecodeError::MissingBlobLength);
            }
            let n = u64_from_le_bytes(&payload[0..8]);
            if n > (payload.len() - 8) as u64 {
                return Err(DecodeError::MissingBlobPayload);
            }
            let end = 8 + n as usize;
            Ok(BorrowedValue::Blob(&payload[8..end]))
        },
    }
}

/// Decodes the entry at the start of `data`, borrowing its text or bytes.
pub fn deserialize_borrowed(data: &[u8]) -> (r: Result<BorrowedValue<'_>, DecodeError>)
    ensures
        view_decoded(r) == decode_value(data@),
{
    if data.len() < HEADER_SIZE {
        return Err(DecodeError::SliceTooShortForHeader);
    }
    let header = match deserialize_header(data) {
        Ok(h) => h,
        Err(e) => return Err(e),
    };
    if header.length > (data.len() - LEN_BYTES) as u64 {
        return Err(DecodeError::EntryTruncated);
    }
    let total_len = header.length as usize;
    if total_len < CHECKSUM_BYTES + TAG_BYTES {
        return Err(DecodeError::PayloadTruncated);
    }
    let payload_end = LEN_BYTES + total_len;
    let payload = &data[HEADER_SIZE..payload_end];
    let computed = crc32_checksum(payload);
    if computed != header.checksum {
        return Err(DecodeError::ChecksumMismatch { computed, stored: header.checksum });
    }
    let tag = match TypeTag::from_u8(header.tag) {
        Some(t) => t,
        None => return Err(DecodeError::UnknownTypeTag(header.tag)),
    };
    decode_payload_exec(tag, payload)
}

/// Parses the entry at the start of `data` and the number of bytes it spans;
/// `Ok(None)` when the data ends before the entry does.
pub fn parse_entry(data: &[u8]) -> (r: Result<Option<(BorrowedValue<'_>, usize)>, DecodeError>)
    ensures
        view_parsed(r) == parse_entry_spec(data@),
{
    if data.len() < HEADER_SIZE {
        return Ok(None);
    }
    let header = match deserialize_header(data) {
        Ok(h) => h,
        Err(e) => return Err(e),
    };
    if header.length > (data.len() - LEN_BYTES) as u64 {
        return Ok(None);
    }
    let used = LEN_BYTES + header.length as usize;
    let entry = &data[0..used];
    match deserialize_borrowed(entry) {
        Ok(v) => Ok(Some((v, used))),
        Err(e) => Err(e),
    }
}

} // verus!
