//! The packed ziplist: a sequence of integer/string entries held in one
//! contiguous byte buffer.
//!
//! Layout (little-endian multibyte integers):
//!
//! ```text
//! zl_bytes:u32 | zl_tail_offset:u32 | zl_len:u16 | entry* | 0xFF
//! ```
//!
//! Each entry is `prevlen . encoding . payload`, where `prevlen` records the
//! total byte length of the preceding entry (one byte below 254, else `0xFE`
//! plus a little-endian u32), and the encoding tag picks the narrowest
//! integer or string-length class that holds the value.  Every mutation keeps
//! the buffer exactly equal to the canonical encoding of the entry sequence:
//! each entry's prevlen equals the true byte length of its predecessor.

use vstd::prelude::*;
use vstd::pervasive::VecAdditionalExecFns;
use vstd::arithmetic::div_mod::{lemma_fundamental_div_mod, lemma_div_denominator};
use crate::error::ListError;
use crate::redis_object::{RedisObject, ObjectSpec, spec_parse_int};

verus! {

/// The mathematical value of one ziplist entry, by encoding class.
pub enum EntrySpec {
    Int4(u8),
    Int8(i8),
    Int16(i16),
    Int24(i32),
    Int32(i32),
    Int64(i64),
    Str6(Seq<u8>),
    Str14(Seq<u8>),
    Str32(Seq<u8>),
}

/// Whether an entry's payload fits its encoding class.
pub open spec fn wf_entry(e: EntrySpec) -> bool {
    match e {
        EntrySpec::Int4(v) => v <= 12,
        EntrySpec::Int8(_) => true,
        EntrySpec::Int16(_) => true,
        EntrySpec::Int24(v) => -0x80_0000 <= v <= 0x7F_FFFF,
        EntrySpec::Int32(_) => true,
        EntrySpec::Int64(_) => true,
        EntrySpec::Str6(s) => s.len() <= 63,
        EntrySpec::Str14(s) => s.len() <= 16383,
        EntrySpec::Str32(s) => s.len() <= 0xFFFF_FFFF,
    }
}

pub open spec fn wf_entries(entries: Seq<EntrySpec>) -> bool {
    forall|i: int| 0 <= i < entries.len() ==> wf_entry(#[trigger] entries[i])
}

/// Two's-complement value of a signed byte, as an unsigned one.
pub open spec fn to_u8(v: i8) -> u8 {
    if v >= 0 { v as u8 } else { (v + 0x100) as u8 }
}

pub open spec fn to_u16(v: i16) -> u16 {
    if v >= 0 { v as u16 } else { (v + 0x1_0000) as u16 }
}

pub open spec fn to_u32(v: i32) -> u32 {
    if v >= 0 { v as u32 } else { (v + 0x1_0000_0000) as u32 }
}

pub open spec fn to_u64(v: i64) -> u64 {
    if v >= 0 { v as u64 } else { (v + 0x1_0000_0000_0000_0000) as u64 }
}

/// Two's-complement value of a 24-bit signed integer.
pub open spec fn to_u24(v: i32) -> u32
    recommends -0x80_0000 <= v <= 0x7F_FFFF,
{
    if v >= 0 { v as u32 } else { (v + 0x100_0000) as u32 }
}

pub open spec fn le16(v: u16) -> Seq<u8> {
    seq![(v % 256) as u8, (v / 256) as u8]
}

pub open spec fn le24(v: u32) -> Seq<u8>
    recommends v < 0x100_0000,
{
    seq![(v % 256) as u8, ((v / 256) % 256) as u8, ((v / 0x1_0000) % 256) as u8]
}

pub open spec fn le32(v: u32) -> Seq<u8> {
    seq![
        (v % 256) as u8,
        ((v / 256) % 256) as u8,
        ((v / 0x1_0000) % 256) as u8,
        ((v / 0x100_0000) % 256) as u8,
    ]
}

pub open spec fn be32(v: u32) -> Seq<u8> {
    seq![
        ((v / 0x100_0000) % 256) as u8,
        ((v / 0x1_0000) % 256) as u8,
        ((v / 256) % 256) as u8,
        (v % 256) as u8,
    ]
}

pub open spec fn le64(v: u64) -> Seq<u8> {
    seq![
        (v % 256) as u8,
        ((v / 0x100) % 256) as u8,
        ((v / 0x1_0000) % 256) as u8,
        ((v / 0x100_0000) % 256) as u8,
        ((v / 0x1_0000_0000) % 256) as u8,
        ((v / 0x100_0000_0000) % 256) as u8,
        ((v / 0x1_0000_0000_0000) % 256) as u8,
        ((v / 0x100_0000_0000_0000) % 256) as u8,
    ]
}

/// How many bytes the prevlen field takes for a predecessor of `n` bytes:
/// one below 254, five from 254 on.
pub open spec fn prevlen_size(n: nat) -> nat {
    if n < 254 { 1 } else { 5 }
}

/// The prevlen field for a predecessor of `n` bytes.
pub open spec fn enc_prevlen(n: nat) -> Seq<u8>
    recommends n <= 0xFFFF_FFFF,
{
    if n < 254 { seq![n as u8] } else { seq![254u8] + le32(n as u32) }
}

/// Bytes of encoding tag plus payload for one entry.
pub open spec fn payload_len(e: EntrySpec) -> nat {
    match e {
        EntrySpec::Int4(_) => 1,
        EntrySpec::Int8(_) => 2,
        EntrySpec::Int16(_) => 3,
        EntrySpec::Int24(_) => 4,
        EntrySpec::Int32(_) => 5,
        EntrySpec::Int64(_) => 9,
        EntrySpec::Str6(s) => s.len() + 1,
        EntrySpec::Str14(s) => s.len() + 2,
        EntrySpec::Str32(s) => s.len() + 5,
    }
}

/// The encoding tag and payload of one entry.  Tag bytes by class:
/// strings start at 0, 64 and 128; integers use 192 (i16), 208 (i32),
/// 224 (i64), 240 (i24), 254 (i8), and 241..=253 for the 4-bit immediates
/// (value + 1 in the low nibble).
pub open spec fn enc_payload(e: EntrySpec) -> Seq<u8>
    recommends wf_entry(e),
{
    match e {
        EntrySpec::Int4(v) => seq![(240 + v + 1) as u8],
        EntrySpec::Int8(v) => seq![254u8, to_u8(v)],
        EntrySpec::Int16(v) => seq![192u8] + le16(to_u16(v)),
        EntrySpec::Int24(v) => seq![240u8] + le24(to_u24(v)),
        EntrySpec::Int32(v) => seq![208u8] + le32(to_u32(v)),
        EntrySpec::Int64(v) => seq![224u8] + le64(to_u64(v)),
        EntrySpec::Str6(s) => seq![s.len() as u8] + s,
        EntrySpec::Str14(s) => seq![(64 + s.len() / 256) as u8, (s.len() % 256) as u8] + s,
        EntrySpec::Str32(s) => seq![128u8] + be32(s.len() as u32) + s,
    }
}

/// Total in-buffer size of one entry whose predecessor spans `prev` bytes.
pub open spec fn entry_total(prev: nat, e: EntrySpec) -> nat {
    prevlen_size(prev) + payload_len(e)
}

/// The concatenated entry bytes, threading each entry's total size into the
/// next entry's prevlen; `prev` is the total size of the entry before the
/// first one listed (0 at the front of the list).
pub open spec fn body_bytes(entries: Seq<EntrySpec>, prev: nat) -> Seq<u8>
    decreases entries.len(),
{
    if entries.len() == 0 {
        Seq::empty()
    } else {
        enc_prevlen(prev) + enc_payload(entries[0])
            + body_bytes(entries.skip(1), entry_total(prev, entries[0]))
    }
}

/// The total size of the last listed entry, or `prev` when none is listed.
pub open spec fn end_total(entries: Seq<EntrySpec>, prev: nat) -> nat
    decreases entries.len(),
{
    if entries.len() == 0 {
        prev
    } else {
        end_total(entries.skip(1), entry_total(prev, entries[0]))
    }
}

/// Total buffer length: 10 header bytes, the entries, one terminator byte.
pub open spec fn zl_total_bytes(entries: Seq<EntrySpec>) -> nat {
    11 + body_bytes(entries, 0).len()
}

/// Offset of the last entry's prevlen (10 when the list is empty).
pub open spec fn zl_tail(entries: Seq<EntrySpec>) -> nat {
    (10 + body_bytes(entries, 0).len() - end_total(entries, 0)) as nat
}

/// The canonical buffer encoding a sequence of entries.
pub open spec fn zl_encode(entries: Seq<EntrySpec>) -> Seq<u8>
    recommends
        wf_entries(entries),
        entries.len() <= 0xFFFF,
        zl_total_bytes(entries) <= 0xFFFF_FFFF,
{
    le32(zl_total_bytes(entries) as u32) + le32(zl_tail(entries) as u32)
        + le16(entries.len() as u16) + body_bytes(entries, 0) + seq![255u8]
}

/// Byte offset of entry `i`: past the header and all earlier entries.
pub open spec fn entry_off(entries: Seq<EntrySpec>, i: int) -> nat {
    10 + body_bytes(entries.take(i), 0).len()
}

/// The stored value an entry decodes to.
pub open spec fn entry_value(e: EntrySpec) -> ObjectSpec {
    match e {
        EntrySpec::Int4(v) => ObjectSpec::Int(v as i64),
        EntrySpec::Int8(v) => ObjectSpec::Int(v as i64),
        EntrySpec::Int16(v) => ObjectSpec::Int(v as i64),
        EntrySpec::Int24(v) => ObjectSpec::Int(v as i64),
        EntrySpec::Int32(v) => ObjectSpec::Int(v as i64),
        EntrySpec::Int64(v) => ObjectSpec::Int(v),
        EntrySpec::Str6(s) => ObjectSpec::Str(s),
        EntrySpec::Str14(s) => ObjectSpec::Str(s),
        EntrySpec::Str32(s) => ObjectSpec::Str(s),
    }
}

/// The narrowest integer encoding class holding `i`.
pub open spec fn classify_int(i: i64) -> EntrySpec {
    if 0 <= i <= 12 {
        EntrySpec::Int4(i as u8)
    } else if -128 <= i <= 127 {
        EntrySpec::Int8(i as i8)
    } else if -32768 <= i <= 32767 {
        EntrySpec::Int16(i as i16)
    } else if -0x80_0000 <= i <= 0x7F_FFFF {
        EntrySpec::Int24(i as i32)
    } else if -0x8000_0000 <= i <= 0x7FFF_FFFF {
        EntrySpec::Int32(i as i32)
    } else {
        EntrySpec::Int64(i)
    }
}

/// The narrowest string-length class holding `s`, or nothing when even the
/// 32-bit class cannot.
pub open spec fn classify_str(s: Seq<u8>) -> Option<EntrySpec> {
    if s.len() <= 63 {
        Some(EntrySpec::Str6(s))
    } else if s.len() <= 16383 {
        Some(EntrySpec::Str14(s))
    } else if s.len() <= 0xFFFF_FFFF {
        Some(EntrySpec::Str32(s))
    } else {
        None
    }
}

/// How a scalar value is classified into an entry.
pub open spec fn classify_obj(o: ObjectSpec) -> Option<EntrySpec>
    recommends !(o is List),
{
    match o {
        ObjectSpec::Int(i) => Some(classify_int(i)),
        ObjectSpec::Str(s) => classify_str(s),
        ObjectSpec::List(_) => None,
    }
}

/// One ziplist entry, ready to be written into a buffer.
#[derive(Clone, Debug, PartialEq)]
pub enum ZipEntry {
    Int4BitsImmediate(u8),
    Int8(i8),
    Int16(i16),
    Int24(i32),
    Int32(i32),
    Int64(i64),
    Str6BitsLength(Vec<u8>),
    Str14BitsLength(Vec<u8>),
    Str32BitsLength(Vec<u8>),
}

impl View for ZipEntry {
    type V = EntrySpec;

    open spec fn view(&self) -> EntrySpec {
        match self {
            ZipEntry::Int4BitsImmediate(v) => EntrySpec::Int4(*v),
            ZipEntry::Int8(v) => EntrySpec::Int8(*v),
            ZipEntry::Int16(v) => EntrySpec::Int16(*v),
            ZipEntry::Int24(v) => EntrySpec::Int24(*v),
            ZipEntry::Int32(v) => EntrySpec::Int32(*v),
            ZipEntry::Int64(v) => EntrySpec::Int64(*v),
            ZipEntry::Str6BitsLength(s) => EntrySpec::Str6(s@),
            ZipEntry::Str14BitsLength(s) => EntrySpec::Str14(s@),
            ZipEntry::Str32BitsLength(s) => EntrySpec::Str32(s@),
        }
    }
}

impl ZipEntry {
    /// Classifies a scalar value into the narrowest entry encoding;
    /// a string longer than the 32-bit class is too large for any.
    pub fn from_redis_object(obj: RedisObject) -> (r: Result<ZipEntry, ListError>)
        requires
            !(obj@ is List),
        ensures
            match r {
                Ok(e) => classify_obj(obj@) == Some(e@) && wf_entry(e@),
                Err(err) => classify_obj(obj@) is None && err == ListError::EntryTooLarge,
            },
    {
        match obj {
            RedisObject::Int(i) => {
                if 0 <= i && i <= 12 {
                    Ok(ZipEntry::Int4BitsImmediate(i as u8))
                } else if -128 <= i && i <= 127 {
                    Ok(ZipEntry::Int8(i as i8))
                } else if -32768 <= i && i <= 32767 {
                    Ok(ZipEntry::Int16(i as i16))
                } else if -0x80_0000 <= i && i <= 0x7F_FFFF {
                    Ok(ZipEntry::Int24(i as i32))
                } else if -0x8000_0000 <= i && i <= 0x7FFF_FFFF {
                    Ok(ZipEntry::Int32(i as i32))
                } else {
                    Ok(ZipEntry::Int64(i))
                }
            }
            RedisObject::String(s) => {
                if s.len() <= 63 {
                    Ok(ZipEntry::Str6BitsLength(s))
                } else if s.len() <= 16383 {
                    Ok(ZipEntry::Str14BitsLength(s))
                } else if s.len() <= 0xFFFF_FFFF {
                    Ok(ZipEntry::Str32BitsLength(s))
                } else {
                    Err(ListError::EntryTooLarge)
                }
            }
            RedisObject::List(_) => {
                proof {
                    assert(false);
                }
                Err(ListError::EntryTooLarge)
            }
        }
    }

    /// Classifies raw bytes: integer literals take the narrowest integer
    /// class, everything else the narrowest string class.
    pub fn from_bytes(bytes: &[u8]) -> (r: Result<ZipEntry, ListError>)
        ensures
            match r {
                Ok(e) => classify_obj(crate::redis_object::obj_of_bytes(bytes@)) == Some(e@)
                    && wf_entry(e@),
                Err(err) => classify_obj(crate::redis_object::obj_of_bytes(bytes@)) is None
                    && err == ListError::EntryTooLarge,
            },
    {
        match crate::redis_object::try_parse_int(bytes) {
            Some(i) => {
                proof {
                    assert(spec_parse_int(bytes@) == Some(i));
                }
                if 0 <= i && i <= 12 {
                    Ok(ZipEntry::Int4BitsImmediate(i as u8))
                } else if -128 <= i && i <= 127 {
                    Ok(ZipEntry::Int8(i as i8))
                } else if -32768 <= i && i <= 32767 {
                    Ok(ZipEntry::Int16(i as i16))
                } else if -0x80_0000 <= i && i <= 0x7F_FFFF {
                    Ok(ZipEntry::Int24(i as i32))
                } else if -0x8000_0000 <= i && i <= 0x7FFF_FFFF {
                    Ok(ZipEntry::Int32(i as i32))
                } else {
                    Ok(ZipEntry::Int64(i))
                }
            }
            None => {
                if bytes.len() <= 63 {
                    Ok(ZipEntry::Str6BitsLength(vstd::slice::slice_to_vec(bytes)))
                } else if bytes.len() <= 16383 {
                    Ok(ZipEntry::Str14BitsLength(vstd::slice::slice_to_vec(bytes)))
                } else if bytes.len() <= 0xFFFF_FFFF {
                    Ok(ZipEntry::Str32BitsLength(vstd::slice::slice_to_vec(bytes)))
                } else {
                    Err(ListError::EntryTooLarge)
                }
            }
        }
    }

    /// The entry's in-buffer size: encoding tag plus payload, without its
    /// prevlen field.
    pub fn amount_bytes(&self) -> (r: usize)
        requires
            wf_entry(self@),
            payload_len(self@) <= usize::MAX,
        ensures
            r == payload_len(self@),
    {
        match self {
            ZipEntry::Int4BitsImmediate(_) => 1,
            ZipEntry::Int8(_) => 2,
            ZipEntry::Int16(_) => 3,
            ZipEntry::Int24(_) => 4,
            ZipEntry::Int32(_) => 5,
            ZipEntry::Int64(_) => 9,
            ZipEntry::Str6BitsLength(s) => s.len() + 1,
            ZipEntry::Str14BitsLength(s) => s.len() + 2,
            ZipEntry::Str32BitsLength(s) => s.len() + 5,
        }
    }
}

/// The encoding class named by a tag byte.
#[derive(Debug, PartialEq, Eq)]
pub enum EncodingType {
    Int4BitsImmediate,
    Int8,
    Int16,
    Int24,
    Int32,
    Int64,
    Str6BitsLength,
    Str14BitsLength,
    Str32BitsLength,
}

/// Whether a byte is a well-formed encoding tag.
pub open spec fn valid_header(header: u8) -> bool {
    header <= 128 || header == 192 || header == 208 || header == 224
        || (240 <= header <= 254)
}

/// The class a valid tag byte names.
pub open spec fn spec_header_type(header: u8) -> EncodingType
    recommends valid_header(header),
{
    if header == 254 {
        EncodingType::Int8
    } else if header == 192 {
        EncodingType::Int16
    } else if header == 240 {
        EncodingType::Int24
    } else if header == 208 {
        EncodingType::Int32
    } else if header == 224 {
        EncodingType::Int64
    } else if header == 128 {
        EncodingType::Str32BitsLength
    } else if 241 <= header <= 253 {
        EncodingType::Int4BitsImmediate
    } else if 64 <= header <= 127 {
        EncodingType::Str14BitsLength
    } else {
        EncodingType::Str6BitsLength
    }
}

impl EncodingType {
    /// Reads the encoding class off a tag byte.
    pub fn from_header(header: u8) -> (r: EncodingType)
        requires
            valid_header(header),
        ensures
            r == spec_header_type(header),
    {
        if header == 254 {
            EncodingType::Int8
        } else if header == 192 {
            EncodingType::Int16
        } else if header == 240 {
            EncodingType::Int24
        } else if header == 208 {
            EncodingType::Int32
        } else if header == 224 {
            EncodingType::Int64
        } else if header == 128 {
            EncodingType::Str32BitsLength
        } else if 241 <= header && header <= 253 {
            EncodingType::Int4BitsImmediate
        } else if 64 <= header && header <= 127 {
            EncodingType::Str14BitsLength
        } else {
            EncodingType::Str6BitsLength
        }
    }
}

/// Each encoded component is as long as its size function says, and never
/// empty.
pub proof fn lemma_enc_payload_len(e: EntrySpec)
    ensures
        enc_payload(e).len() == payload_len(e),
        payload_len(e) >= 1,
{
    match e {
        EntrySpec::Int4(_) => {
            assert(enc_payload(e).len() == payload_len(e));
        }
        EntrySpec::Int8(_) => {
            assert(enc_payload(e).len() == payload_len(e));
        }
        EntrySpec::Int16(_) => {
            assert(enc_payload(e).len() == payload_len(e));
        }
        EntrySpec::Int24(_) => {
            assert(enc_payload(e).len() == payload_len(e));
        }
        EntrySpec::Int32(_) => {
            assert(enc_payload(e).len() == payload_len(e));
        }
        EntrySpec::Int64(_) => {
            assert(enc_payload(e).len() == payload_len(e));
        }
        EntrySpec::Str6(_) => {
            assert(enc_payload(e).len() == payload_len(e));
        }
        EntrySpec::Str14(_) => {
            assert(enc_payload(e).len() == payload_len(e));
        }
        EntrySpec::Str32(_) => {
            assert(enc_payload(e).len() == payload_len(e));
        }
    }
}

pub proof fn lemma_enc_prevlen_len(n: nat)
    ensures
        enc_prevlen(n).len() == prevlen_size(n),
{
    if n < 254 {
        assert(enc_prevlen(n).len() == 1);
    } else {
        assert(enc_prevlen(n).len() == 5);
    }
}

/// Appending an entry appends its prevlen (the old last entry's total) and
/// payload bytes; the new end total is the appended entry's own total.
pub proof fn lemma_body_push(entries: Seq<EntrySpec>, prev: nat, e: EntrySpec)
    ensures
        body_bytes(entries.push(e), prev) == body_bytes(entries, prev)
            + enc_prevlen(end_total(entries, prev)) + enc_payload(e),
        end_total(entries.push(e), prev) == entry_total(end_total(entries, prev), e),
    decreases entries.len(),
{
    if entries.len() == 0 {
        assert(entries.push(e)[0] == e);
        assert(entries.push(e).skip(1) =~= Seq::<EntrySpec>::empty());
        assert(entries.push(e).len() == 1);
        assert(body_bytes(entries.push(e).skip(1), entry_total(prev, e))
            == Seq::<u8>::empty());
        assert(body_bytes(entries.push(e), prev) == enc_prevlen(prev) + enc_payload(e)
            + Seq::<u8>::empty());
        assert(body_bytes(entries, prev) == Seq::<u8>::empty());
        assert(end_total(entries, prev) == prev);
        assert(enc_prevlen(prev) + enc_payload(e) + Seq::<u8>::empty() =~= Seq::<u8>::empty()
            + enc_prevlen(prev) + enc_payload(e));
        assert(end_total(entries.push(e), prev)
            == end_total(entries.push(e).skip(1), entry_total(prev, e)));
    } else {
        assert(entries.push(e)[0] == entries[0]);
        assert(entries.push(e).skip(1) =~= entries.skip(1).push(e));
        lemma_body_push(entries.skip(1), entry_total(prev, entries[0]), e);
        assert(body_bytes(entries.push(e), prev) =~= body_bytes(entries, prev)
            + enc_prevlen(end_total(entries, prev)) + enc_payload(e));
    }
}

/// The entry bytes split at any index: the suffix is encoded with the prefix's
/// end total as its incoming prevlen value.
pub proof fn lemma_body_split(entries: Seq<EntrySpec>, prev: nat, k: int)
    requires
        0 <= k <= entries.len(),
    ensures
        body_bytes(entries, prev) == body_bytes(entries.take(k), prev)
            + body_bytes(entries.skip(k), end_total(entries.take(k), prev)),
        end_total(entries, prev) == end_total(
            entries.skip(k),
            end_total(entries.take(k), prev),
        ),
    decreases k,
{
    if k == 0 {
        assert(entries.take(0) =~= Seq::<EntrySpec>::empty());
        assert(entries.skip(0) =~= entries);
        assert(body_bytes(entries, prev) =~= body_bytes(entries.take(0), prev)
            + body_bytes(entries.skip(0), end_total(entries.take(0), prev)));
    } else {
        assert(entries.take(k)[0] == entries[0]);
        assert(entries.take(k).skip(1) =~= entries.skip(1).take(k - 1));
        assert(entries.skip(k) =~= entries.skip(1).skip(k - 1));
        lemma_body_split(entries.skip(1), entry_total(prev, entries[0]), k - 1);
        assert(end_total(entries.take(k), prev) == end_total(
            entries.skip(1).take(k - 1),
            entry_total(prev, entries[0]),
        ));
        assert(body_bytes(entries, prev) =~= body_bytes(entries.take(k), prev)
            + body_bytes(entries.skip(k), end_total(entries.take(k), prev)));
    }
}

/// A nonempty body is at least as long as its last entry's total size, and
/// any body of `n` entries spans at least `2n` bytes.
pub proof fn lemma_end_le_body(entries: Seq<EntrySpec>, prev: nat)
    ensures
        entries.len() > 0 ==> end_total(entries, prev) <= body_bytes(entries, prev).len(),
        body_bytes(entries, prev).len() >= 2 * entries.len(),
    decreases entries.len(),
{
    if entries.len() > 0 {
        lemma_enc_prevlen_len(prev);
        lemma_enc_payload_len(entries[0]);
        lemma_end_le_body(entries.skip(1), entry_total(prev, entries[0]));
        if entries.len() == 1 {
            assert(entries.skip(1).len() == 0);
            assert(end_total(entries.skip(1), entry_total(prev, entries[0]))
                == entry_total(prev, entries[0]));
            assert(body_bytes(entries.skip(1), entry_total(prev, entries[0]))
                == Seq::<u8>::empty());
            assert(end_total(entries, prev) == entry_total(prev, entries[0]));
            assert(body_bytes(entries, prev).len() == entry_total(prev, entries[0]));
        }
    }
}

/// Reassembling a little-endian u32 from its four bytes gives the value back.
pub proof fn lemma_le32_roundtrip(v: u32)
    ensures
        le32(v)[0] + 256 * le32(v)[1] + 0x1_0000 * le32(v)[2] + 0x100_0000 * le32(v)[3] == v,
{
    lemma_fundamental_div_mod(v as int, 256);
    lemma_fundamental_div_mod(v as int / 256, 256);
    lemma_fundamental_div_mod(v as int / 0x1_0000, 256);
    lemma_div_denominator(v as int, 256, 256);
    lemma_div_denominator(v as int, 0x1_0000, 256);
}

/// The same, reading the four bytes of a big-endian u32.
pub proof fn lemma_be32_roundtrip(v: u32)
    ensures
        0x100_0000 * be32(v)[0] + 0x1_0000 * be32(v)[1] + 256 * be32(v)[2] + be32(v)[3] == v,
{
    lemma_fundamental_div_mod(v as int, 256);
    lemma_fundamental_div_mod(v as int / 256, 256);
    lemma_fundamental_div_mod(v as int / 0x1_0000, 256);
    lemma_div_denominator(v as int, 256, 256);
    lemma_div_denominator(v as int, 0x1_0000, 256);
}

pub proof fn lemma_le16_roundtrip(v: u16)
    ensures
        le16(v)[0] + 256 * le16(v)[1] == v,
{
    lemma_fundamental_div_mod(v as int, 256);
}

pub proof fn lemma_le24_roundtrip(v: u32)
    requires
        v < 0x100_0000,
    ensures
        le24(v)[0] + 256 * le24(v)[1] + 0x1_0000 * le24(v)[2] == v,
{
    lemma_fundamental_div_mod(v as int, 256);
    lemma_fundamental_div_mod(v as int / 256, 256);
    lemma_div_denominator(v as int, 256, 256);
}

/// Reassembling a little-endian u64 from its eight bytes gives the value back.
pub proof fn lemma_le64_roundtrip(v: u64)
    ensures
        le64(v)[0] + 0x100 * le64(v)[1] + 0x1_0000 * le64(v)[2] + 0x100_0000 * le64(v)[3]
            + 0x1_0000_0000 * le64(v)[4] + 0x100_0000_0000 * le64(v)[5]
            + 0x1_0000_0000_0000 * le64(v)[6] + 0x100_0000_0000_0000 * le64(v)[7] == v,
{
    lemma_fundamental_div_mod(v as int, 256);
    lemma_fundamental_div_mod(v as int / 0x100, 256);
    lemma_fundamental_div_mod(v as int / 0x1_0000, 256);
    lemma_fundamental_div_mod(v as int / 0x100_0000, 256);
    lemma_fundamental_div_mod(v as int / 0x1_0000_0000, 256);
    lemma_fundamental_div_mod(v as int / 0x100_0000_0000, 256);
    lemma_fundamental_div_mod(v as int / 0x1_0000_0000_0000, 256);
    lemma_div_denominator(v as int, 0x100, 256);
    lemma_div_denominator(v as int, 0x1_0000, 256);
    lemma_div_denominator(v as int, 0x100_0000, 256);
    lemma_div_denominator(v as int, 0x1_0000_0000, 256);
    lemma_div_denominator(v as int, 0x100_0000_0000, 256);
    lemma_div_denominator(v as int, 0x1_0000_0000_0000, 256);
}

/// Total size of the entry before entry `i` (0 at the front).
pub open spec fn prev_total(entries: Seq<EntrySpec>, i: int) -> nat {
    end_total(entries.take(i), 0)
}

/// Whether an entry sequence fits the ziplist's u32/u16 header widths.
pub open spec fn zl_fits(entries: Seq<EntrySpec>) -> bool {
    entries.len() <= 0xFFFF && zl_total_bytes(entries) <= 0xFFFF_FFFF
}

/// Every prefix of a fitting entry sequence fits.
pub proof fn lemma_fits_prefix(entries: Seq<EntrySpec>, k: int)
    requires
        0 <= k <= entries.len(),
        zl_fits(entries),
    ensures
        zl_fits(entries.take(k)),
{
    lemma_body_split(entries, 0, k);
}

/// Growing the incoming prevlen value never shrinks the encoded body.
pub proof fn lemma_body_prev_mono(entries: Seq<EntrySpec>, pa: nat, pb: nat)
    requires
        pa <= pb,
    ensures
        body_bytes(entries, pa).len() <= body_bytes(entries, pb).len(),
    decreases entries.len(),
{
    if entries.len() > 0 {
        lemma_enc_prevlen_len(pa);
        lemma_enc_prevlen_len(pb);
        lemma_body_prev_mono(
            entries.skip(1),
            entry_total(pa, entries[0]),
            entry_total(pb, entries[0]),
        );
    }
}

/// Where entry `i` lies in the encoded buffer: its bytes are its prevlen
/// field followed by its payload, and the next entry starts right after.
pub proof fn lemma_entry_bytes(entries: Seq<EntrySpec>, i: int)
    requires
        0 <= i < entries.len(),
    ensures
        entry_off(entries, i) + entry_total(prev_total(entries, i), entries[i])
            <= 10 + body_bytes(entries, 0).len(),
        entry_off(entries, i + 1) == entry_off(entries, i)
            + entry_total(prev_total(entries, i), entries[i]),
        prev_total(entries, i + 1) == entry_total(prev_total(entries, i), entries[i]),
        zl_encode(entries).subrange(
            entry_off(entries, i) as int,
            entry_off(entries, i) + entry_total(prev_total(entries, i), entries[i]) as int,
        ) == enc_prevlen(prev_total(entries, i)) + enc_payload(entries[i]),
        i == entries.len() - 1 ==> entry_off(entries, i) == zl_tail(entries),
        prev_total(entries, i) <= 0xFFFF_FFFF || zl_total_bytes(entries) > 0xFFFF_FFFF,
{
    let p = prev_total(entries, i);
    let e = entries[i];
    lemma_body_split(entries, 0, i);
    assert(entries.skip(i)[0] == e);
    assert(entries.skip(i).skip(1) =~= entries.skip(i + 1));
    assert(body_bytes(entries.skip(i), p) == enc_prevlen(p) + enc_payload(e)
        + body_bytes(entries.skip(i + 1), entry_total(p, e)));
    assert(entries.take(i + 1) =~= entries.take(i).push(e));
    lemma_body_push(entries.take(i), 0, e);
    lemma_enc_prevlen_len(p);
    lemma_enc_payload_len(e);
    assert(zl_encode(entries).subrange(
        entry_off(entries, i) as int,
        entry_off(entries, i) + entry_total(p, e) as int,
    ) =~= enc_prevlen(p) + enc_payload(e));
    if i == entries.len() - 1 {
        assert(entries.skip(i + 1).len() == 0);
        assert(body_bytes(entries.skip(i + 1), entry_total(p, e)) == Seq::<u8>::empty());
        assert(end_total(entries.skip(i), p) == end_total(
            entries.skip(i + 1),
            entry_total(p, e),
        ));
        assert(end_total(entries, 0) == entry_total(p, e));
    }
    if prev_total(entries, i) > 0xFFFF_FFFF {
        // A predecessor that large forces the whole buffer over the u32 cap.
        lemma_end_le_body(entries.take(i), 0);
        if i > 0 {
            assert(body_bytes(entries.take(i), 0).len() >= end_total(entries.take(i), 0));
        }
    }
}

/// The first payload byte of each encoding class, and where its length
/// information lives.
pub proof fn lemma_payload_tag(e: EntrySpec)
    requires
        wf_entry(e),
    ensures
        match e {
            EntrySpec::Int4(v) => enc_payload(e)[0] == 241 + v,
            EntrySpec::Int8(_) => enc_payload(e)[0] == 254,
            EntrySpec::Int16(_) => enc_payload(e)[0] == 192,
            EntrySpec::Int24(_) => enc_payload(e)[0] == 240,
            EntrySpec::Int32(_) => enc_payload(e)[0] == 208,
            EntrySpec::Int64(_) => enc_payload(e)[0] == 224,
            EntrySpec::Str6(s) => enc_payload(e)[0] == s.len(),
            EntrySpec::Str14(s) => enc_payload(e)[0] == 64 + s.len() / 256
                && enc_payload(e)[1] == s.len() % 256,
            EntrySpec::Str32(s) => enc_payload(e)[0] == 128
                && enc_payload(e)[1] == be32(s.len() as u32)[0]
                && enc_payload(e)[2] == be32(s.len() as u32)[1]
                && enc_payload(e)[3] == be32(s.len() as u32)[2]
                && enc_payload(e)[4] == be32(s.len() as u32)[3],
        },
{
}

/// Reads the little-endian u32 stored at `off`.
fn read_u32_le(data: &Vec<u8>, off: usize) -> (r: u32)
    requires
        off + 4 <= data@.len(),
    ensures
        r == data@[off as int] + 256 * data@[off + 1] + 0x1_0000 * data@[off + 2]
            + 0x100_0000 * data@[off + 3],
{
    proof {
        vstd::std_specs::vec::axiom_spec_len(data);
    }
    let b0 = data[off];
    let b1 = data[off + 1];
    let b2 = data[off + 2];
    let b3 = data[off + 3];
    (b0 as u32) + 256 * (b1 as u32) + 0x1_0000 * (b2 as u32) + 0x100_0000 * (b3 as u32)
}

/// Overwrites the four bytes at `off` with the little-endian u32 `v`.
fn write_u32_le(data: &mut Vec<u8>, off: usize, v: u32)
    requires
        off + 4 <= old(data)@.len(),
    ensures
        final(data)@.len() == old(data)@.len(),
        forall|i: int| 0 <= i < final(data)@.len() ==> final(data)@[i] == if off <= i < off + 4 {
            le32(v)[i - off]
        } else {
            old(data)@[i]
        },
{
    proof {
        vstd::std_specs::vec::axiom_spec_len(data);
    }
    data.set(off, (v % 256) as u8);
    data.set(off + 1, ((v / 256) % 256) as u8);
    data.set(off + 2, ((v / 0x1_0000) % 256) as u8);
    data.set(off + 3, ((v / 0x100_0000) % 256) as u8);
}

/// Overwrites the two bytes at `off` with the little-endian u16 `v`.
fn write_u16_le(data: &mut Vec<u8>, off: usize, v: u16)
    requires
        off + 2 <= old(data)@.len(),
    ensures
        final(data)@.len() == old(data)@.len(),
        forall|i: int| 0 <= i < final(data)@.len() ==> final(data)@[i] == if off <= i < off + 2 {
            le16(v)[i - off]
        } else {
            old(data)@[i]
        },
{
    proof {
        vstd::std_specs::vec::axiom_spec_len(data);
    }
    data.set(off, (v % 256) as u8);
    data.set(off + 1, (v / 256) as u8);
}

/// Appends the prevlen field for a predecessor of `prev` bytes.
fn write_prevlen(data: &mut Vec<u8>, prev: u32)
    ensures
        final(data)@ == old(data)@ + enc_prevlen(prev as nat),
{
    if prev < 254 {
        data.push(prev as u8);
    } else {
        data.push(254u8);
        data.push((prev % 256) as u8);
        data.push(((prev / 256) % 256) as u8);
        data.push(((prev / 0x1_0000) % 256) as u8);
        data.push(((prev / 0x100_0000) % 256) as u8);
        proof {
            assert(data@ =~= old(data)@ + enc_prevlen(prev as nat));
        }
    }
}

/// Appends an entry's encoding tag and payload bytes.
fn write_payload(data: &mut Vec<u8>, value: &ZipEntry)
    requires
        wf_entry(value@),
    ensures
        final(data)@ == old(data)@ + enc_payload(value@),
{
    match value {
        ZipEntry::Int4BitsImmediate(v) => {
            data.push(240u8 + *v + 1);
        }
        ZipEntry::Int8(v) => {
            data.push(254u8);
            let u: u8 = if *v >= 0 { *v as u8 } else { ((*v as i16) + 0x100) as u8 };
            data.push(u);
            proof {
                assert(data@ =~= old(data)@ + enc_payload(value@));
            }
        }
        ZipEntry::Int16(v) => {
            data.push(192u8);
            let u: u16 = if *v >= 0 { *v as u16 } else { ((*v as i32) + 0x1_0000) as u16 };
            data.push((u % 256) as u8);
            data.push((u / 256) as u8);
            proof {
                assert(data@ =~= old(data)@ + enc_payload(value@));
            }
        }
        ZipEntry::Int24(v) => {
            data.push(240u8);
            let u: u32 = if *v >= 0 { *v as u32 } else { ((*v as i64) + 0x100_0000) as u32 };
            data.push((u % 256) as u8);
            data.push(((u / 256) % 256) as u8);
            data.push(((u / 0x1_0000) % 256) as u8);
            proof {
                assert(data@ =~= old(data)@ + enc_payload(value@));
            }
        }
        ZipEntry::Int32(v) => {
            data.push(208u8);
            let u: u32 = if *v >= 0 { *v as u32 } else { ((*v as i64) + 0x1_0000_0000) as u32 };
            data.push((u % 256) as u8);
            data.push(((u / 256) % 256) as u8);
            data.push(((u / 0x1_0000) % 256) as u8);
            data.push(((u / 0x100_0000) % 256) as u8);
            proof {
                assert(data@ =~= old(data)@ + enc_payload(value@));
            }
        }
        ZipEntry::Int64(v) => {
            data.push(224u8);
            let u: u64 = if *v >= 0 {
                *v as u64
            } else {
                ((*v as i128) + 0x1_0000_0000_0000_0000) as u64
            };
            data.push((u % 256) as u8);
            data.push(((u / 0x100) % 256) as u8);
            data.push(((u / 0x1_0000) % 256) as u8);
            data.push(((u / 0x100_0000) % 256) as u8);
            data.push(((u / 0x1_0000_0000) % 256) as u8);
            data.push(((u / 0x100_0000_0000) % 256) as u8);
            data.push(((u / 0x1_0000_0000_0000) % 256) as u8);
            data.push(((u / 0x100_0000_0000_0000) % 256) as u8);
            proof {
                assert(data@ =~= old(data)@ + enc_payload(value@));
            }
        }
        ZipEntry::Str6BitsLength(s) => {
            data.push(s.len() as u8);
            crate::connection::append_slice(data, s.as_slice());
            proof {
                assert(data@ =~= old(data)@ + enc_payload(value@));
            }
        }
        ZipEntry::Str14BitsLength(s) => {
            data.push((64 + s.len() / 256) as u8);
            data.push((s.len() % 256) as u8);
            crate::connection::append_slice(data, s.as_slice());
            proof {
                assert(data@ =~= old(data)@ + enc_payload(value@));
            }
        }
        ZipEntry::Str32BitsLength(s) => {
            data.push(128u8);
            let l: u32 = s.len() as u32;
            data.push(((l / 0x100_0000) % 256) as u8);
            data.push(((l / 0x1_0000) % 256) as u8);
            data.push(((l / 256) % 256) as u8);
            data.push((l % 256) as u8);
            crate::connection::append_slice(data, s.as_slice());
            proof {
                assert(data@ =~= old(data)@ + enc_payload(value@));
            }
        }
    }
}

/// The entry's tag-plus-payload size, computed without overflow.
fn payload_size_u64(value: &ZipEntry) -> (r: u64)
    requires
        wf_entry(value@),
    ensures
        r == payload_len(value@),
{
    match value {
        ZipEntry::Int4BitsImmediate(_) => 1,
        ZipEntry::Int8(_) => 2,
        ZipEntry::Int16(_) => 3,
        ZipEntry::Int24(_) => 4,
        ZipEntry::Int32(_) => 5,
        ZipEntry::Int64(_) => 9,
        ZipEntry::Str6BitsLength(s) => s.len() as u64 + 1,
        ZipEntry::Str14BitsLength(s) => s.len() as u64 + 2,
        ZipEntry::Str32BitsLength(s) => s.len() as u64 + 5,
    }
}

/// A packed list held as one contiguous byte buffer, always equal to the
/// canonical encoding of its entry sequence.
#[derive(Clone)]
pub struct ZipList {
    data: Vec<u8>,
    entries: Ghost<Seq<EntrySpec>>,
}

impl View for ZipList {
    type V = Seq<EntrySpec>;

    closed spec fn view(&self) -> Seq<EntrySpec> {
        self.entries@
    }
}

impl ZipList {
    /// The raw buffer contents.
    pub closed spec fn bytes(&self) -> Seq<u8> {
        self.data@
    }

    /// The buffer is exactly the canonical encoding of the entry sequence,
    /// every entry fits its class, and the header fields fit their widths.
    pub closed spec fn wf(&self) -> bool {
        &&& wf_entries(self.entries@)
        &&& self.entries@.len() <= 0xFFFF
        &&& zl_total_bytes(self.entries@) <= 0xFFFF_FFFF
        &&& self.data@ == zl_encode(self.entries@)
    }

    /// A well-formed ziplist's buffer is the canonical encoding of its
    /// entries, with every header field in range.
    pub proof fn lemma_wf_encoding(&self)
        requires
            self.wf(),
        ensures
            self.bytes() == zl_encode(self@),
            wf_entries(self@),
            self@.len() <= 0xFFFF,
            zl_total_bytes(self@) <= 0xFFFF_FFFF,
    {
    }

    /// An empty ziplist: headers describing zero entries, then the terminator.
    pub fn new() -> (r: ZipList)
        ensures
            r.wf(),
            r@ == Seq::<EntrySpec>::empty(),
    {
        let mut data: Vec<u8> = Vec::new();
        data.push(11u8);
        data.push(0u8);
        data.push(0u8);
        data.push(0u8);
        data.push(10u8);
        data.push(0u8);
        data.push(0u8);
        data.push(0u8);
        data.push(0u8);
        data.push(0u8);
        data.push(255u8);
        let r = ZipList { data, entries: Ghost(Seq::empty()) };
        proof {
            assert(r.data@ =~= zl_encode(Seq::<EntrySpec>::empty()));
        }
        r
    }

    /// The number of entries.
    pub fn len(&self) -> (r: usize)
        requires
            self.wf(),
        ensures
            r == self@.len(),
    {
        let b0 = self.data[8];
        let b1 = self.data[9];
        proof {
            assert(self.data@[8] == le16(self@.len() as u16)[0]);
            assert(self.data@[9] == le16(self@.len() as u16)[1]);
        }
        (b0 as usize) + 256 * (b1 as usize)
    }

    /// The raw buffer, exactly as laid out in memory.
    pub fn as_bytes(&self) -> (r: &Vec<u8>)
        ensures
            r@ == self.bytes(),
    {
        &self.data
    }

    /// One buffer byte.
    fn byte_at(&self, i: usize) -> (r: u8)
        requires
            i < self.bytes().len(),
        ensures
            r == self.bytes()[i as int],
    {
        self.data[i]
    }

    /// The `zl_bytes` header: the whole buffer's length.
    fn get_zl_bytes(&self) -> (r: u32)
        requires
            self.wf(),
        ensures
            r == zl_total_bytes(self@),
    {
        proof {
            let t = zl_total_bytes(self@) as u32;
            assert(self.data@[0] == le32(t)[0]);
            assert(self.data@[1] == le32(t)[1]);
            assert(self.data@[2] == le32(t)[2]);
            assert(self.data@[3] == le32(t)[3]);
            lemma_le32_roundtrip(t);
        }
        read_u32_le(&self.data, 0)
    }

    /// The `zl_tail_offset` header: where the last entry starts.
    fn get_zl_tail(&self) -> (r: u32)
        requires
            self.wf(),
        ensures
            r == zl_tail(self@),
    {
        proof {
            let t = zl_tail(self@) as u32;
            assert(self.data@[4] == le32(t)[0]);
            assert(self.data@[5] == le32(t)[1]);
            assert(self.data@[6] == le32(t)[2]);
            assert(self.data@[7] == le32(t)[3]);
            lemma_le32_roundtrip(t);
            lemma_end_le_body(self@, 0);
        }
        read_u32_le(&self.data, 4)
    }

    /// The total byte size of the current last entry (0 when empty): exactly
    /// the prevlen value a newly appended entry must record.
    fn get_tail_prevlen(&self) -> (r: u32)
        requires
            self.wf(),
        ensures
            r == end_total(self@, 0),
    {
        proof {
            lemma_end_le_body(self@, 0);
        }
        let total = self.get_zl_bytes();
        let tail = self.get_zl_tail();
        total - tail - 1
    }

    /// Appends an entry at the tail.  Fails, leaving the list unchanged, only
    /// when the grown buffer would no longer fit the u32 `zl_bytes` header or
    /// the u16 `zl_len` header.
    #[verifier::rlimit(100)]
    #[verifier::spinoff_prover]
    pub fn push(&mut self, value: ZipEntry) -> (r: Result<(), ListError>)
        requires
            old(self).wf(),
            wf_entry(value@),
        ensures
            final(self).wf(),
            match r {
                Ok(()) => final(self)@ == old(self)@.push(value@)
                    && old(self)@.len() < 0xFFFF
                    && zl_total_bytes(old(self)@.push(value@)) <= 0xFFFF_FFFF,
                Err(e) => *final(self) == *old(self) && e == ListError::EntryTooLarge
                    && !(old(self)@.len() < 0xFFFF
                        && zl_total_bytes(old(self)@.push(value@)) <= 0xFFFF_FFFF),
            },
    {
        let ghost es = self.entries@;
        let ghost new_es = es.push(value@);
        proof {
            lemma_body_push(es, 0, value@);
        }
        let total = self.get_zl_bytes();
        let prev = self.get_tail_prevlen();
        let cur_len = self.len();
        let ps: u64 = if prev < 254 { 1 } else { 5 };
        let pl: u64 = payload_size_u64(&value);
        let new_total64: u64 = total as u64 + ps + pl;
        if cur_len >= 0xFFFF || new_total64 > 0xFFFF_FFFF {
            return Err(ListError::EntryTooLarge);
        }
        let new_total: u32 = new_total64 as u32;
        let new_tail: u32 = total - 1;
        self.data.pop();
        proof {
            assert(self.data@ =~= le32(zl_total_bytes(es) as u32) + le32(zl_tail(es) as u32)
                + le16(es.len() as u16) + body_bytes(es, 0));
        }
        write_prevlen(&mut self.data, prev);
        write_payload(&mut self.data, &value);
        self.data.push(255u8);
        write_u32_le(&mut self.data, 0, new_total);
        write_u32_le(&mut self.data, 4, new_tail);
        write_u16_le(&mut self.data, 8, (cur_len + 1) as u16);
        self.entries = Ghost(new_es);
        proof {
            lemma_end_le_body(es, 0);
            assert(zl_total_bytes(new_es) == new_total);
            assert(zl_tail(new_es) == new_tail);
            assert(new_es.len() == cur_len + 1);
            assert(self.data@ =~= zl_encode(new_es));
        }
        Ok(())
    }

    /// Decodes the entry at byte offset `off` (entry number `i`, whose
    /// predecessor spans `prev` bytes), returning the entry, the offset of
    /// the next entry, and the decoded entry's own total size.
    #[verifier::rlimit(100)]
    #[verifier::spinoff_prover]
    fn read_entry(&self, off: usize, prev: u32, Ghost(i): Ghost<int>) -> (r: (ZipEntry, usize, u32))
        requires
            self.wf(),
            0 <= i < self@.len(),
            off == entry_off(self@, i),
            prev == prev_total(self@, i),
        ensures
            r.0@ == self@[i],
            wf_entry(r.0@),
            r.1 == entry_off(self@, i + 1),
            r.2 == prev_total(self@, i + 1),
    {
        let ghost e = self@[i];
        let ghost p = prev_total(self@, i);
        let ghost chunk = enc_prevlen(p) + enc_payload(e);
        let ghost total = entry_total(p, e);
        proof {
            lemma_entry_bytes(self@, i);
            lemma_payload_tag(e);
            lemma_enc_prevlen_len(p);
            lemma_enc_payload_len(e);
            assert(wf_entry(e));
            assert(self.data@.len() == zl_total_bytes(self@));
            assert(off + total <= self.data@.len() - 1);
            assert(self.data@.subrange(off as int, off + total as int) == chunk);
            assert(self.data@[off as int] == chunk[0]);
        }
        let ps: usize = if self.data[off] == 254 { 5 } else { 1 };
        proof {
            assert(chunk[0] == enc_prevlen(p)[0]);
            assert(ps == prevlen_size(p));
            assert(self.data@[off + ps] == chunk[ps as int]);
        }
        let tag = self.data[off + ps];
        proof {
            assert(chunk[ps as int] == enc_payload(e)[0]);
        }
        let entry: ZipEntry;
        let pl64: u64;
        if tag <= 63 {
            let len: usize = tag as usize;
            let start = off + ps + 1;
            let s = vstd::slice::slice_to_vec(
                vstd::slice::slice_subrange(self.data.as_slice(), start, start + len),
            );
            proof {
                assert(e matches EntrySpec::Str6(sv) && sv.len() == len);
                assert forall|j: int| 0 <= j < len implies
                    #[trigger] self.data@[start + j] == enc_payload(e)[1 + j] by {
                    assert(self.data@.subrange(off as int, off + total as int)[ps + 1 + j]
                        == self.data@[off + ps + 1 + j]);
                    assert(chunk[ps + 1 + j] == enc_payload(e)[1 + j]);
                }
                assert forall|j: int| 0 <= j < len implies #[trigger] s@[j]
                    == enc_payload(e).subrange(1, 1 + len as int)[j] by {
                    assert(s@[j] == self.data@.subrange(
                        start as int, start + len as int)[j]);
                    assert(self.data@.subrange(start as int, start + len as int)[j]
                        == self.data@[start + j]);
                    assert(enc_payload(e).subrange(1, 1 + len as int)[j]
                        == enc_payload(e)[1 + j]);
                }
                assert(s@ =~= enc_payload(e).subrange(1, 1 + len as int));
                assert(enc_payload(e).subrange(1, 1 + len as int)
                    =~= e->Str6_0);
            }
            entry = ZipEntry::Str6BitsLength(s);
            pl64 = 1 + len as u64;
        } else if tag <= 127 {
            let b1 = self.data[off + ps + 1];
            let len: usize = ((tag - 64) as usize) * 256 + b1 as usize;
            proof {
                assert(self.data@[off + ps + 1] == chunk[ps + 1]);
                assert(chunk[ps + 1] == enc_payload(e)[1]);

                assert(e matches EntrySpec::Str14(sv));
                lemma_fundamental_div_mod(e->Str14_0.len() as int, 256);
                assert(len == e->Str14_0.len());
            }
            let start = off + ps + 2;
            let s = vstd::slice::slice_to_vec(
                vstd::slice::slice_subrange(self.data.as_slice(), start, start + len),
            );
            proof {
                assert forall|j: int| 0 <= j < len implies
                    #[trigger] self.data@[start + j] == enc_payload(e)[2 + j] by {
                    assert(self.data@.subrange(off as int, off + total as int)[ps + 2 + j]
                        == self.data@[off + ps + 2 + j]);
                    assert(chunk[ps + 2 + j] == enc_payload(e)[2 + j]);
                }
                assert forall|j: int| 0 <= j < len implies #[trigger] s@[j]
                    == enc_payload(e).subrange(2, 2 + len as int)[j] by {
                    assert(s@[j] == self.data@.subrange(
                        start as int, start + len as int)[j]);
                    assert(self.data@.subrange(start as int, start + len as int)[j]
                        == self.data@[start + j]);
                    assert(enc_payload(e).subrange(2, 2 + len as int)[j]
                        == enc_payload(e)[2 + j]);
                }
                assert(s@ =~= enc_payload(e).subrange(2, 2 + len as int));
                assert(enc_payload(e).subrange(2, 2 + len as int) =~= e->Str14_0);
            }
            entry = ZipEntry::Str14BitsLength(s);
            pl64 = 2 + len as u64;
        } else if tag == 128 {
            let b1 = self.data[off + ps + 1];
            let b2 = self.data[off + ps + 2];
            let b3 = self.data[off + ps + 3];
            let b4 = self.data[off + ps + 4];
            let len32: u32 = 0x100_0000 * (b1 as u32) + 0x1_0000 * (b2 as u32)
                + 256 * (b3 as u32) + b4 as u32;
            proof {
                assert(self.data@[off + ps + 1] == chunk[ps + 1]);
                assert(chunk[ps + 1] == enc_payload(e)[1]);
                assert(self.data@[off + ps + 2] == chunk[ps + 2]);
                assert(chunk[ps + 2] == enc_payload(e)[2]);
                assert(self.data@[off + ps + 3] == chunk[ps + 3]);
                assert(chunk[ps + 3] == enc_payload(e)[3]);
                assert(self.data@[off + ps + 4] == chunk[ps + 4]);
                assert(chunk[ps + 4] == enc_payload(e)[4]);

                assert(e matches EntrySpec::Str32(sv));
                lemma_be32_roundtrip(e->Str32_0.len() as u32);
                assert(len32 == e->Str32_0.len());
            }
            let len: usize = len32 as usize;
            let start = off + ps + 5;
            let s = vstd::slice::slice_to_vec(
                vstd::slice::slice_subrange(self.data.as_slice(), start, start + len),
            );
            proof {
                assert forall|j: int| 0 <= j < len implies
                    #[trigger] self.data@[start + j] == enc_payload(e)[5 + j] by {
                    assert(self.data@.subrange(off as int, off + total as int)[ps + 5 + j]
                        == self.data@[off + ps + 5 + j]);
                    assert(chunk[ps + 5 + j] == enc_payload(e)[5 + j]);
                }
                assert forall|j: int| 0 <= j < len implies #[trigger] s@[j]
                    == enc_payload(e).subrange(5, 5 + len as int)[j] by {
                    assert(s@[j] == self.data@.subrange(
                        start as int, start + len as int)[j]);
                    assert(self.data@.subrange(start as int, start + len as int)[j]
                        == self.data@[start + j]);
                    assert(enc_payload(e).subrange(5, 5 + len as int)[j]
                        == enc_payload(e)[5 + j]);
                }
                assert(s@ =~= enc_payload(e).subrange(5, 5 + len as int));
                assert(enc_payload(e).subrange(5, 5 + len as int) =~= e->Str32_0);
            }
            entry = ZipEntry::Str32BitsLength(s);
            pl64 = 5 + len as u64;
        } else if tag == 192 {
            let b1 = self.data[off + ps + 1];
            let b2 = self.data[off + ps + 2];
            let u: u16 = b1 as u16 + 256 * (b2 as u16);
            proof {
                assert(self.data@[off + ps + 1] == chunk[ps + 1]);
                assert(chunk[ps + 1] == enc_payload(e)[1]);
                assert(self.data@[off + ps + 2] == chunk[ps + 2]);
                assert(chunk[ps + 2] == enc_payload(e)[2]);

                assert(e matches EntrySpec::Int16(v));
                lemma_le16_roundtrip(to_u16(e->Int16_0));
                assert(u == to_u16(e->Int16_0));
            }
            let v: i16 = if u < 0x8000 { u as i16 } else { ((u as i32) - 0x1_0000) as i16 };
            entry = ZipEntry::Int16(v);
            pl64 = 3;
        } else if tag == 208 {
            let b1 = self.data[off + ps + 1];
            let b2 = self.data[off + ps + 2];
            let b3 = self.data[off + ps + 3];
            let b4 = self.data[off + ps + 4];
            let u: u32 = b1 as u32 + 256 * (b2 as u32) + 0x1_0000 * (b3 as u32)
                + 0x100_0000 * (b4 as u32);
            proof {
                assert(self.data@[off + ps + 1] == chunk[ps + 1]);
                assert(chunk[ps + 1] == enc_payload(e)[1]);
                assert(self.data@[off + ps + 2] == chunk[ps + 2]);
                assert(chunk[ps + 2] == enc_payload(e)[2]);
                assert(self.data@[off + ps + 3] == chunk[ps + 3]);
                assert(chunk[ps + 3] == enc_payload(e)[3]);
                assert(self.data@[off + ps + 4] == chunk[ps + 4]);
                assert(chunk[ps + 4] == enc_payload(e)[4]);

                assert(e matches EntrySpec::Int32(v));
                lemma_le32_roundtrip(to_u32(e->Int32_0));
                assert(u == to_u32(e->Int32_0));
            }
            let v: i32 = if u < 0x8000_0000 { u as i32 } else {
                ((u as i64) - 0x1_0000_0000) as i32
            };
            entry = ZipEntry::Int32(v);
            pl64 = 5;
        } else if tag == 224 {
            let b1 = self.data[off + ps + 1];
            let b2 = self.data[off + ps + 2];
            let b3 = self.data[off + ps + 3];
            let b4 = self.data[off + ps + 4];
            let b5 = self.data[off + ps + 5];
            let b6 = self.data[off + ps + 6];
            let b7 = self.data[off + ps + 7];
            let b8 = self.data[off + ps + 8];
            let u: u64 = b1 as u64 + 0x100 * (b2 as u64) + 0x1_0000 * (b3 as u64)
                + 0x100_0000 * (b4 as u64) + 0x1_0000_0000 * (b5 as u64)
                + 0x100_0000_0000 * (b6 as u64) + 0x1_0000_0000_0000 * (b7 as u64)
                + 0x100_0000_0000_0000 * (b8 as u64);
            proof {
                assert(self.data@[off + ps + 1] == chunk[ps + 1]);
                assert(chunk[ps + 1] == enc_payload(e)[1]);
                assert(self.data@[off + ps + 2] == chunk[ps + 2]);
                assert(chunk[ps + 2] == enc_payload(e)[2]);
                assert(self.data@[off + ps + 3] == chunk[ps + 3]);
                assert(chunk[ps + 3] == enc_payload(e)[3]);
                assert(self.data@[off + ps + 4] == chunk[ps + 4]);
                assert(chunk[ps + 4] == enc_payload(e)[4]);
                assert(self.data@[off + ps + 5] == chunk[ps + 5]);
                assert(chunk[ps + 5] == enc_payload(e)[5]);
                assert(self.data@[off + ps + 6] == chunk[ps + 6]);
                assert(chunk[ps + 6] == enc_payload(e)[6]);
                assert(self.data@[off + ps + 7] == chunk[ps + 7]);
                assert(chunk[ps + 7] == enc_payload(e)[7]);
                assert(self.data@[off + ps + 8] == chunk[ps + 8]);
                assert(chunk[ps + 8] == enc_payload(e)[8]);

                assert(e matches EntrySpec::Int64(v));
                lemma_le64_roundtrip(to_u64(e->Int64_0));
                assert(u == to_u64(e->Int64_0));
            }
            let v: i64 = if u < 0x8000_0000_0000_0000 { u as i64 } else {
                ((u as i128) - 0x1_0000_0000_0000_0000) as i64
            };
            entry = ZipEntry::Int64(v);
            pl64 = 9;
        } else if tag == 240 {
            let b1 = self.data[off + ps + 1];
            let b2 = self.data[off + ps + 2];
            let b3 = self.data[off + ps + 3];
            let u: u32 = b1 as u32 + 256 * (b2 as u32) + 0x1_0000 * (b3 as u32);
            proof {
                assert(self.data@[off + ps + 1] == chunk[ps + 1]);
                assert(chunk[ps + 1] == enc_payload(e)[1]);
                assert(self.data@[off + ps + 2] == chunk[ps + 2]);
                assert(chunk[ps + 2] == enc_payload(e)[2]);
                assert(self.data@[off + ps + 3] == chunk[ps + 3]);
                assert(chunk[ps + 3] == enc_payload(e)[3]);

                assert(e matches EntrySpec::Int24(v));
                lemma_le24_roundtrip(to_u24(e->Int24_0));
                assert(u == to_u24(e->Int24_0));
            }
            let v: i32 = if u < 0x80_0000 { u as i32 } else { ((u as i64) - 0x100_0000) as i32 };
            entry = ZipEntry::Int24(v);
            pl64 = 4;
        } else if tag == 254 {
            let b1 = self.data[off + ps + 1];
            proof {
                assert(self.data@[off + ps + 1] == chunk[ps + 1]);
                assert(chunk[ps + 1] == enc_payload(e)[1]);

                assert(e matches EntrySpec::Int8(v));
            }
            let v: i8 = if b1 < 128 { b1 as i8 } else { ((b1 as i16) - 0x100) as i8 };
            entry = ZipEntry::Int8(v);
            pl64 = 2;
        } else {
            proof {
                assert(241 <= tag <= 253);
                assert(e matches EntrySpec::Int4(v));
            }
            entry = ZipEntry::Int4BitsImmediate(tag - 241);
            pl64 = 1;
        }
        let next64: u64 = off as u64 + ps as u64 + pl64;
        let newprev64: u64 = ps as u64 + pl64;
        proof {
            assert(pl64 == payload_len(e));
            assert(next64 == entry_off(self@, i + 1));
            assert(newprev64 == prev_total(self@, i + 1));
        }
        (entry, next64 as usize, newprev64 as u32)
    }

    /// Walks forward to entry `index`, returning its byte offset and its
    /// predecessor's total size.
    fn locate(&self, index: usize) -> (r: (usize, u32))
        requires
            self.wf(),
            index < self@.len(),
        ensures
            r.0 == entry_off(self@, index as int),
            r.1 == prev_total(self@, index as int),
    {
        proof {
            assert(self@.take(0) =~= Seq::<EntrySpec>::empty());
        }
        let mut off: usize = 10;
        let mut prev: u32 = 0;
        let mut i: usize = 0;
        while i < index
            invariant
                self.wf(),
                index < self@.len(),
                i <= index,
                off == entry_off(self@, i as int),
                prev == prev_total(self@, i as int),
            decreases index - i,
        {
            let (_, noff, nprev) = self.read_entry(off, prev, Ghost(i as int));
            off = noff;
            prev = nprev;
            i = i + 1;
        }
        (off, prev)
    }

    /// The value stored at `index`; out of range fails with the list
    /// untouched.
    pub fn get(&self, index: usize) -> (r: Result<RedisObject, ListError>)
        requires
            self.wf(),
        ensures
            match r {
                Ok(o) => index < self@.len() && o@ == entry_value(self@[index as int]),
                Err(e) => index >= self@.len() && e == ListError::IndexOutOfRange,
            },
    {
        if index >= self.len() {
            return Err(ListError::IndexOutOfRange);
        }
        let (off, prev) = self.locate(index);
        let (entry, _, _) = self.read_entry(off, prev, Ghost(index as int));
        match entry {
            ZipEntry::Int4BitsImmediate(v) => Ok(RedisObject::Int(v as i64)),
            ZipEntry::Int8(v) => Ok(RedisObject::Int(v as i64)),
            ZipEntry::Int16(v) => Ok(RedisObject::Int(v as i64)),
            ZipEntry::Int24(v) => Ok(RedisObject::Int(v as i64)),
            ZipEntry::Int32(v) => Ok(RedisObject::Int(v as i64)),
            ZipEntry::Int64(v) => Ok(RedisObject::Int(v)),
            ZipEntry::Str6BitsLength(s) => Ok(RedisObject::String(s)),
            ZipEntry::Str14BitsLength(s) => Ok(RedisObject::String(s)),
            ZipEntry::Str32BitsLength(s) => Ok(RedisObject::String(s)),
        }
    }

    /// Re-encodes a sequence of already-decoded entries into a fresh list.
    fn build_from(items: Vec<ZipEntry>, Ghost(target): Ghost<Seq<EntrySpec>>) -> (r: Result<
        ZipList,
        ListError,
    >)
        requires
            items@.len() == target.len(),
            forall|j: int| 0 <= j < items@.len() ==> items@[j]@ == target[j]
                && wf_entry(#[trigger] items@[j]@),
        ensures
            match r {
                Ok(z) => z.wf() && z@ == target && zl_fits(target),
                Err(e) => e == ListError::EntryTooLarge && !zl_fits(target),
            },
    {
        let mut items = items;
        let mut nl = ZipList::new();
        let n = items.len();
        let mut k: usize = 0;
        proof {
            assert(target.take(0) =~= Seq::<EntrySpec>::empty());
        }
        while k < n
            invariant
                n == target.len(),
                k <= n,
                items@.len() == n - k,
                forall|j: int| 0 <= j < items@.len() ==> items@[j]@ == target[k + j]
                    && wf_entry(#[trigger] items@[j]@),
                nl.wf(),
                nl@ == target.take(k as int),
            decreases n - k,
        {
            let ghost pre = items@;
            let e = items.remove(0);
            proof {
                assert(e@ == target[k as int]);
                assert(items@ =~= pre.subrange(1, pre.len() as int));
                assert(forall|j: int| 0 <= j < items@.len() ==> items@[j] == pre[j + 1]);
            }
            let res = nl.push(e);
            proof {
                assert(target.take(k + 1) =~= target.take(k as int).push(e@));
            }
            match res {
                Ok(()) => {}
                Err(_) => {
                    proof {
                        if zl_fits(target) {
                            lemma_fits_prefix(target, k + 1);
                            assert(false);
                        }
                    }
                    return Err(ListError::EntryTooLarge);
                }
            }
            k = k + 1;
        }
        proof {
            assert(target.take(n as int) =~= target);
        }
        Ok(nl)
    }

    /// Inserts an entry at `index`, shifting later entries up.  Inserting at
    /// `len` is a push.  An index past the end fails with `IndexOutOfRange`;
    /// a result that no longer fits the u32/u16 headers fails with
    /// `EntryTooLarge`.  On any failure the list is unchanged.
    pub fn insert(&mut self, index: usize, value: ZipEntry) -> (r: Result<(), ListError>)
        requires
            old(self).wf(),
            wf_entry(value@),
        ensures
            final(self).wf(),
            match r {
                Ok(()) => index <= old(self)@.len()
                    && zl_fits(old(self)@.insert(index as int, value@))
                    && final(self)@ == old(self)@.insert(index as int, value@),
                Err(ListError::IndexOutOfRange) => index > old(self)@.len()
                    && *final(self) == *old(self),
                Err(ListError::EntryTooLarge) => index <= old(self)@.len()
                    && !zl_fits(old(self)@.insert(index as int, value@))
                    && *final(self) == *old(self),
            },
    {
        let ghost olds = self@;
        let n = self.len();
        if index > n {
            return Err(ListError::IndexOutOfRange);
        }
        let ghost target = olds.insert(index as int, value@);
        let mut items = self.to_entries();
        let ghost pre = items@;
        items.insert(index, value);
        proof {
            olds.insert_ensures(index as int, value@);
            assert(items@ == pre.insert(index as int, value));
            pre.insert_ensures(index as int, value);
            assert forall|j: int| 0 <= j < items@.len() implies items@[j]@ == target[j]
                && wf_entry(#[trigger] items@[j]@) by {
                if j < index {
                    assert(items@[j] == pre[j]);
                    assert(target[j] == olds[j]);
                } else if j == index {
                    assert(items@[j] == value);
                    assert(target[j] == value@);
                } else {
                    assert(items@[j] == pre[j - 1]);
                    assert(target[j] == olds[j - 1]);
                }
            }
        }
        match Self::build_from(items, Ghost(target)) {
            Ok(z) => {
                *self = z;
                Ok(())
            }
            Err(e) => Err(e),
        }
    }

    /// Removes the entry at `index`, shifting later entries down.  An index
    /// past the end fails with `IndexOutOfRange`; in the rare case where
    /// rewriting a successor's prevlen overflows the u32 header the call
    /// fails with `EntryTooLarge`.  On any failure the list is unchanged.
    pub fn delete(&mut self, index: usize) -> (r: Result<(), ListError>)
        requires
            old(self).wf(),
        ensures
            final(self).wf(),
            match r {
                Ok(()) => index < old(self)@.len()
                    && zl_fits(old(self)@.remove(index as int))
                    && final(self)@ == old(self)@.remove(index as int),
                Err(ListError::IndexOutOfRange) => index >= old(self)@.len()
                    && *final(self) == *old(self),
                Err(ListError::EntryTooLarge) => index < old(self)@.len()
                    && !zl_fits(old(self)@.remove(index as int))
                    && *final(self) == *old(self),
            },
    {
        let ghost olds = self@;
        let n = self.len();
        if index >= n {
            return Err(ListError::IndexOutOfRange);
        }
        let ghost target = olds.remove(index as int);
        let mut items = self.to_entries();
        let ghost pre = items@;
        items.remove(index);
        proof {
            olds.remove_ensures(index as int);
            assert(items@ == pre.remove(index as int));
            pre.remove_ensures(index as int);
            assert forall|j: int| 0 <= j < items@.len() implies items@[j]@ == target[j]
                && wf_entry(#[trigger] items@[j]@) by {
                if j < index {
                    assert(items@[j] == pre[j]);
                    assert(target[j] == olds[j]);
                } else {
                    assert(items@[j] == pre[j + 1]);
                    assert(target[j] == olds[j + 1]);
                }
            }
        }
        match Self::build_from(items, Ghost(target)) {
            Ok(z) => {
                *self = z;
                Ok(())
            }
            Err(e) => Err(e),
        }
    }

    /// Removing the front entry always fits: the new first entry's prevlen
    /// shrinks to zero, and later prevlens can only shrink with it.
    proof fn lemma_fits_remove_front(es: Seq<EntrySpec>)
        requires
            es.len() > 0,
            zl_fits(es),
        ensures
            zl_fits(es.remove(0)),
    {
        assert(es.remove(0) =~= es.skip(1));
        lemma_body_prev_mono(es.skip(1), 0, entry_total(0, es[0]));
        lemma_enc_prevlen_len(0);
        lemma_enc_payload_len(es[0]);
    }

    /// Removes and returns the first element.
    pub fn pop_head(&mut self) -> (r: RedisObject)
        requires
            old(self).wf(),
            old(self)@.len() > 0,
        ensures
            final(self).wf(),
            r@ == entry_value(old(self)@[0]),
            final(self)@ == old(self)@.remove(0),
    {
        let v = match self.get(0) {
            Ok(v) => v,
            Err(_) => {
                proof {
                    assert(false);
                }
                RedisObject::Int(0)
            }
        };
        proof {
            Self::lemma_fits_remove_front(self@);
        }
        match self.delete(0) {
            Ok(()) => {}
            Err(_) => {
                proof {
                    assert(false);
                }
            }
        }
        v
    }

    /// Removes and returns the last element.
    pub fn pop_tail(&mut self) -> (r: RedisObject)
        requires
            old(self).wf(),
            old(self)@.len() > 0,
        ensures
            final(self).wf(),
            r@ == entry_value(old(self)@[old(self)@.len() - 1]),
            final(self)@ == old(self)@.remove(old(self)@.len() - 1),
    {
        let n = self.len();
        let v = match self.get(n - 1) {
            Ok(v) => v,
            Err(_) => {
                proof {
                    assert(false);
                }
                RedisObject::Int(0)
            }
        };
        proof {
            lemma_fits_prefix(self@, self@.len() - 1);
            assert(self@.remove(self@.len() - 1) =~= self@.take(self@.len() - 1));
        }
        match self.delete(n - 1) {
            Ok(()) => {}
            Err(_) => {
                proof {
                    assert(false);
                }
            }
        }
        v
    }

    /// Decodes the whole list into its entries, in order.
    fn to_entries(&self) -> (r: Vec<ZipEntry>)
        requires
            self.wf(),
        ensures
            r@.len() == self@.len(),
            forall|k: int| 0 <= k < r@.len() ==> r@[k]@ == self@[k] && wf_entry(#[trigger] r@[k]@),
    {
        proof {
            assert(self@.take(0) =~= Seq::<EntrySpec>::empty());
        }
        let n = self.len();
        let mut out: Vec<ZipEntry> = Vec::new();
        let mut off: usize = 10;
        let mut prev: u32 = 0;
        let mut i: usize = 0;
        while i < n
            invariant
                self.wf(),
                n == self@.len(),
                i <= n,
                off == entry_off(self@, i as int),
                prev == prev_total(self@, i as int),
                out@.len() == i,
                forall|k: int| 0 <= k < i ==> out@[k]@ == self@[k]
                    && wf_entry(#[trigger] out@[k]@),
            decreases n - i,
        {
            let (entry, noff, nprev) = self.read_entry(off, prev, Ghost(i as int));
            out.push(entry);
            off = noff;
            prev = nprev;
            i = i + 1;
        }
        out
    }
}

impl ZipList {
    /// Decodes raw buffer bytes into entries, checking only bounds and tag
    /// validity; header fields and prevlen values are not trusted here.
    fn scan(data: &Vec<u8>) -> (r: Option<(Vec<ZipEntry>, Ghost<Seq<EntrySpec>>)>)
        ensures
            r matches Some(p) ==> {
                &&& p.0@.len() == p.1@.len()
                &&& forall|j: int| 0 <= j < p.0@.len() ==> p.0@[j]@ == p.1@[j]
                    && wf_entry(#[trigger] p.0@[j]@)
            },
    {
        let n = data.len();
        if n < 11 {
            return None;
        }
        if n > 0xFFFF_FFFFusize {
            return None;
        }
        let mut items: Vec<ZipEntry> = Vec::new();
        let ghost mut target: Seq<EntrySpec> = Seq::empty();
        let mut off: usize = 10;
        while off < n - 1
            invariant
                n == data@.len(),
                11 <= n,
                n <= 0xFFFF_FFFF,
                10 <= off,
                items@.len() == target.len(),
                forall|j: int| 0 <= j < items@.len() ==> items@[j]@ == target[j]
                    && wf_entry(#[trigger] items@[j]@),
            decreases n - off,
        {
            if data[off] == 255 {
                return None;
            }
            let ps: usize = if data[off] == 254 { 5 } else { 1 };
            if off as u64 + ps as u64 >= n as u64 {
                return None;
            }
            let tag = data[off + ps];
            let entry: ZipEntry;
            let pl: usize;
            if tag <= 63 {
                let len = tag as usize;
                if off as u64 + ps as u64 + 1 + len as u64 > n as u64 {
                    return None;
                }
                entry = ZipEntry::Str6BitsLength(vstd::slice::slice_to_vec(
                    vstd::slice::slice_subrange(data.as_slice(), off + ps + 1, off + ps + 1 + len),
                ));
                pl = 1 + len;
            } else if tag <= 127 {
                if off as u64 + ps as u64 + 2 > n as u64 {
                    return None;
                }
                let len = ((tag - 64) as usize) * 256 + data[off + ps + 1] as usize;
                if off as u64 + ps as u64 + 2 + len as u64 > n as u64 {
                    return None;
                }
                entry = ZipEntry::Str14BitsLength(vstd::slice::slice_to_vec(
                    vstd::slice::slice_subrange(data.as_slice(), off + ps + 2, off + ps + 2 + len),
                ));
                pl = 2 + len;
            } else if tag == 128 {
                if off as u64 + ps as u64 + 5 > n as u64 {
                    return None;
                }
                let len64: u64 = 0x100_0000 * (data[off + ps + 1] as u64)
                    + 0x1_0000 * (data[off + ps + 2] as u64) + 256 * (data[off + ps + 3] as u64)
                    + data[off + ps + 4] as u64;
                if off as u64 + ps as u64 + 5 + len64 > n as u64 {
                    return None;
                }
                let len = len64 as usize;
                entry = ZipEntry::Str32BitsLength(vstd::slice::slice_to_vec(
                    vstd::slice::slice_subrange(data.as_slice(), off + ps + 5, off + ps + 5 + len),
                ));
                pl = 5 + len;
            } else if tag == 192 {
                if off as u64 + ps as u64 + 3 > n as u64 {
                    return None;
                }
                let u: u16 = data[off + ps + 1] as u16 + 256 * (data[off + ps + 2] as u16);
                let v: i16 = if u < 0x8000 { u as i16 } else { ((u as i32) - 0x1_0000) as i16 };
                entry = ZipEntry::Int16(v);
                pl = 3;
            } else if tag == 208 {
                if off as u64 + ps as u64 + 5 > n as u64 {
                    return None;
                }
                let u: u32 = data[off + ps + 1] as u32 + 256 * (data[off + ps + 2] as u32)
                    + 0x1_0000 * (data[off + ps + 3] as u32)
                    + 0x100_0000 * (data[off + ps + 4] as u32);
                let v: i32 = if u < 0x8000_0000 { u as i32 } else {
                    ((u as i64) - 0x1_0000_0000) as i32
                };
                entry = ZipEntry::Int32(v);
                pl = 5;
            } else if tag == 224 {
                if off as u64 + ps as u64 + 9 > n as u64 {
                    return None;
                }
                let u: u64 = data[off + ps + 1] as u64 + 0x100 * (data[off + ps + 2] as u64)
                    + 0x1_0000 * (data[off + ps + 3] as u64)
                    + 0x100_0000 * (data[off + ps + 4] as u64)
                    + 0x1_0000_0000 * (data[off + ps + 5] as u64)
                    + 0x100_0000_0000 * (data[off + ps + 6] as u64)
                    + 0x1_0000_0000_0000 * (data[off + ps + 7] as u64)
                    + 0x100_0000_0000_0000 * (data[off + ps + 8] as u64);
                let v: i64 = if u < 0x8000_0000_0000_0000 { u as i64 } else {
                    ((u as i128) - 0x1_0000_0000_0000_0000) as i64
                };
                entry = ZipEntry::Int64(v);
                pl = 9;
            } else if tag == 240 {
                if off as u64 + ps as u64 + 4 > n as u64 {
                    return None;
                }
                let u: u32 = data[off + ps + 1] as u32 + 256 * (data[off + ps + 2] as u32)
                    + 0x1_0000 * (data[off + ps + 3] as u32);
                let v: i32 = if u < 0x80_0000 { u as i32 } else {
                    ((u as i64) - 0x100_0000) as i32
                };
                entry = ZipEntry::Int24(v);
                pl = 4;
            } else if tag == 254 {
                if off as u64 + ps as u64 + 2 > n as u64 {
                    return None;
                }
                let b = data[off + ps + 1];
                let v: i8 = if b < 128 { b as i8 } else { ((b as i16) - 0x100) as i8 };
                entry = ZipEntry::Int8(v);
                pl = 2;
            } else if 241 <= tag && tag <= 253 {
                entry = ZipEntry::Int4BitsImmediate(tag - 241);
                pl = 1;
            } else {
                return None;
            }
            proof {
                target = target.push(entry@);
            }
            items.push(entry);
            off = off + ps + pl;
        }
        if off != n - 1 {
            return None;
        }
        Some((items, Ghost(target)))
    }

    /// Validates a raw buffer as a ziplist.  A returned list holds exactly
    /// the given bytes and satisfies the layout invariant; buffers that do
    /// not decode to a canonically encoded list are rejected.
    pub fn from_bytes(data: Vec<u8>) -> (r: Option<ZipList>)
        ensures
            r matches Some(z) ==> z.wf() && z.bytes() == data@,
    {
        let (items, target) = match Self::scan(&data) {
            Some(p) => p,
            None => {
                return None;
            }
        };
        let rebuilt = match Self::build_from(items, target) {
            Ok(z) => z,
            Err(_) => {
                return None;
            }
        };
        let rb = rebuilt.as_bytes();
        if rb.len() != data.len() {
            return None;
        }
        let mut i: usize = 0;
        while i < data.len()
            invariant
                rb@ == rebuilt.bytes(),
                rb@.len() == data@.len(),
                i <= data@.len(),
                forall|j: int| 0 <= j < i ==> rb@[j] == data@[j],
            decreases data@.len() - i,
        {
            if rb[i] != data[i] {
                return None;
            }
            i = i + 1;
        }
        proof {
            assert(rebuilt.bytes() =~= data@);
        }
        Some(rebuilt)
    }
}


/// Forward iteration over a ziplist: yields the byte offset of each entry's
/// prevlen field, front to back.
pub struct ZipListIter<'a> {
    list: &'a ZipList,
    offset: usize,
    prev: u32,
    index: Ghost<int>,
}

impl<'a> ZipListIter<'a> {
    /// The position of the cursor, as an entry index.
    pub closed spec fn at(&self) -> int {
        self.index@
    }

    pub closed spec fn entries(&self) -> Seq<EntrySpec> {
        self.list@
    }

    pub closed spec fn wf_iter(&self) -> bool {
        &&& self.list.wf()
        &&& 0 <= self.index@ <= self.list@.len()
        &&& self.offset == entry_off(self.list@, self.index@)
        &&& self.prev == prev_total(self.list@, self.index@)
    }

    /// Starts at the first entry, just past the headers.
    pub fn new(list: &'a ZipList) -> (r: ZipListIter<'a>)
        requires
            list.wf(),
        ensures
            r.wf_iter(),
            r.at() == 0,
            r.entries() == list@,
    {
        proof {
            assert(list@.take(0) =~= Seq::<EntrySpec>::empty());
        }
        ZipListIter { list, offset: 10, prev: 0, index: Ghost(0) }
    }

    /// The offset of the next entry, stepping the cursor past it; nothing
    /// once every entry has been visited.
    pub fn next(&mut self) -> (r: Option<usize>)
        requires
            old(self).wf_iter(),
        ensures
            final(self).wf_iter(),
            final(self).entries() == old(self).entries(),
            old(self).at() < old(self).entries().len() ==> r == Some(
                entry_off(old(self).entries(), old(self).at()) as usize,
            ) && final(self).at() == old(self).at() + 1,
            old(self).at() == old(self).entries().len() ==> r == Option::<usize>::None
                && final(self).at() == old(self).at(),
    {
        let n = self.list.len();
        if self.index_exec_done(n) {
            return None;
        }
        let cur = self.offset;
        let (_, noff, nprev) = self.list.read_entry(self.offset, self.prev, Ghost(self.index@));
        self.offset = noff;
        self.prev = nprev;
        proof {
            self.index = Ghost(self.index@ + 1);
        }
        Some(cur)
    }

    /// Whether the cursor has passed the last entry.
    fn index_exec_done(&self, n: usize) -> (r: bool)
        requires
            self.wf_iter(),
            n == self.list@.len(),
        ensures
            r == (self.at() == self.list@.len()),
    {
        proof {
            if self.index@ < self.list@.len() {
                lemma_entry_bytes(self.list@, self.index@);
                lemma_end_le_body(self.list@, 0);
            } else {
                assert(self.list@.take(self.list@.len() as int) =~= self.list@);
            }
        }
        self.offset >= self.list.get_zl_bytes() as usize - 1
    }
}

/// Reverse iteration over a ziplist: yields the byte offset of each entry's
/// prevlen field, back to front, stepping by the recorded prevlen values.
pub struct ZipListIterRev<'a> {
    list: &'a ZipList,
    offset: usize,
    remaining: usize,
    index: Ghost<int>,
}

impl<'a> ZipListIterRev<'a> {
    /// How many entries are still to be visited.
    pub closed spec fn at(&self) -> int {
        self.index@
    }

    pub closed spec fn entries(&self) -> Seq<EntrySpec> {
        self.list@
    }

    pub closed spec fn wf_iter(&self) -> bool {
        &&& self.list.wf()
        &&& 0 <= self.index@ <= self.list@.len()
        &&& self.remaining == self.index@
        &&& self.index@ > 0 ==> self.offset == entry_off(self.list@, self.index@ - 1)
    }

    /// Starts at the last entry, where `zl_tail_offset` points.
    pub fn new(list: &'a ZipList) -> (r: ZipListIterRev<'a>)
        requires
            list.wf(),
        ensures
            r.wf_iter(),
            r.at() == list@.len(),
            r.entries() == list@,
    {
        let n = list.len();
        let tail = list.get_zl_tail();
        proof {
            if list@.len() > 0 {
                lemma_entry_bytes(list@, list@.len() - 1);
            }
        }
        ZipListIterRev { list, offset: tail as usize, remaining: n, index: Ghost(n as int) }
    }

    /// The offset of the previous entry, stepping the cursor back over it;
    /// nothing once the front has been passed.
    #[verifier::rlimit(100)]
    #[verifier::spinoff_prover]
    pub fn next(&mut self) -> (r: Option<usize>)
        requires
            old(self).wf_iter(),
        ensures
            final(self).wf_iter(),
            final(self).entries() == old(self).entries(),
            old(self).at() > 0 ==> r == Some(
                entry_off(old(self).entries(), old(self).at() - 1) as usize,
            ) && final(self).at() == old(self).at() - 1,
            old(self).at() == 0 ==> r == Option::<usize>::None && final(self).at() == 0,
    {
        if self.remaining == 0 {
            return None;
        }
        let ghost es = self.list@;
        let ghost i = self.index@ - 1;
        let ghost p = prev_total(es, i);
        let ghost chunk = enc_prevlen(p) + enc_payload(es[i]);
        let cur = self.offset;
        proof {
            lemma_entry_bytes(es, i);
            lemma_enc_prevlen_len(p);
            lemma_enc_payload_len(es[i]);
            assert(self.list.bytes().subrange(
                cur as int,
                cur + entry_total(p, es[i]) as int,
            ) == chunk);
            assert(self.list.bytes()[cur as int] == chunk[0]);
            if i > 0 {
                lemma_entry_bytes(es, i - 1);
            }
        }
        let b = self.list.byte_at(cur);
        let p_exec: u32;
        if b == 254 {
            proof {
                assert(self.list.bytes()[cur + 1] == chunk[1]);
                assert(self.list.bytes()[cur + 2] == chunk[2]);
                assert(self.list.bytes()[cur + 3] == chunk[3]);
                assert(self.list.bytes()[cur + 4] == chunk[4]);
                lemma_le32_roundtrip(p as u32);
            }
            let b1 = self.list.byte_at(cur + 1);
            let b2 = self.list.byte_at(cur + 2);
            let b3 = self.list.byte_at(cur + 3);
            let b4 = self.list.byte_at(cur + 4);
            p_exec = b1 as u32 + 256 * (b2 as u32) + 0x1_0000 * (b3 as u32)
                + 0x100_0000 * (b4 as u32);
        } else {
            p_exec = b as u32;
        }
        proof {
            assert(p_exec == p);
        }
        self.offset = cur - p_exec as usize;
        self.remaining = self.remaining - 1;
        proof {
            self.index = Ghost(self.index@ - 1);
        }
        Some(cur)
    }
}

/// Ziplist layout integrity: in a well-formed list the `zl_bytes` header
/// equals the buffer length, the buffer ends in the 0xFF terminator, walking
/// forward from offset 10 visits exactly the encoded entries, each entry's
/// prevlen field records the true byte length of its predecessor (0 for the
/// first), and `zl_tail_offset` points at the last entry.
pub proof fn lemma_layout_integrity(zl: &ZipList)
    requires
        zl.wf(),
    ensures
        zl.bytes().len() == zl_total_bytes(zl@),
        zl.bytes().len() >= 11,
        zl.bytes()[zl.bytes().len() - 1] == 255,
        prev_total(zl@, 0) == 0,
        forall|i: int| 0 <= i < zl@.len() ==> zl.bytes().subrange(
            entry_off(zl@, i) as int,
            entry_off(zl@, i) + entry_total(prev_total(zl@, i), #[trigger] zl@[i]) as int,
        ) == enc_prevlen(prev_total(zl@, i)) + enc_payload(zl@[i]),
        forall|i: int| 1 <= i < zl@.len() ==> prev_total(zl@, i)
            == entry_total(prev_total(zl@, i - 1), #[trigger] zl@[i - 1]),
        zl@.len() > 0 ==> entry_off(zl@, zl@.len() - 1) == zl_tail(zl@),
{
    assert(zl@.take(0) =~= Seq::<EntrySpec>::empty());
    assert(zl.bytes()[zl.bytes().len() - 1] == 255);
    assert forall|i: int| 0 <= i < zl@.len() implies zl.bytes().subrange(
        entry_off(zl@, i) as int,
        entry_off(zl@, i) + entry_total(prev_total(zl@, i), #[trigger] zl@[i]) as int,
    ) == enc_prevlen(prev_total(zl@, i)) + enc_payload(zl@[i]) by {
        lemma_entry_bytes(zl@, i);
    }
    assert forall|i: int| 1 <= i < zl@.len() implies prev_total(zl@, i)
        == entry_total(prev_total(zl@, i - 1), #[trigger] zl@[i - 1]) by {
        lemma_entry_bytes(zl@, i - 1);
    }
    if zl@.len() > 0 {
        lemma_entry_bytes(zl@, zl@.len() - 1);
    }
}

/// Ziplist round trip: pushing appends an entry without disturbing the ones
/// already stored, so reading index `i` after any sequence of pushes yields
/// the `i`-th pushed entry (`get`'s contract returns `entry_value` of it),
/// and deleting at `i` shifts the later entries down by one.
pub proof fn lemma_ziplist_round_trip(es: Seq<EntrySpec>, e: EntrySpec, i: int)
    requires
        0 <= i <= es.len(),
    ensures
        es.push(e).len() == es.len() + 1,
        es.push(e)[es.len() as int] == e,
        forall|j: int| 0 <= j < es.len() ==> es.push(e)[j] == es[j],
        i < es.len() ==> es.remove(i).len() == es.len() - 1,
        forall|j: int| 0 <= j < i <= es.len() - 1 ==> es.remove(i)[j] == es[j],
        forall|j: int| i <= j < es.len() - 1 ==> es.remove(i)[j] == es[j + 1],
{
    if i < es.len() {
        es.remove_ensures(i);
    }
}

impl PartialEq for ZipList {
    /// Two ziplists are equal when their buffers are; for well-formed lists
    /// that is exactly equality of the entry sequences they encode.
    fn eq(&self, other: &ZipList) -> (r: bool) {
        if self.data.len() != other.data.len() {
            return false;
        }
        let mut i: usize = 0;
        while i < self.data.len()
            invariant
                i <= self.data@.len(),
                self.data@.len() == other.data@.len(),
                forall|j: int| 0 <= j < i ==> self.data@[j] == other.data@[j],
            decreases self.data@.len() - i,
        {
            if self.data[i] != other.data[i] {
                return false;
            }
            i = i + 1;
        }
        proof {
            assert(self.data@ =~= other.data@);
        }
        true
    }
}

impl vstd::std_specs::cmp::PartialEqSpecImpl for ZipList {
    open spec fn obeys_eq_spec() -> bool {
        true
    }

    open spec fn eq_spec(&self, other: &ZipList) -> bool {
        self.bytes() == other.bytes()
    }
}

} // verus!
