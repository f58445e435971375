//! Stored values: byte strings, 64-bit integers, and packed lists.
//!
//! On ingest a byte sequence is classified as an integer iff it matches
//! `-?(0|[1-9][0-9]*)` and fits in a signed 64-bit integer; otherwise it
//! stays a string.  `-0` normalizes to integer 0.

use vstd::prelude::*;
use vstd::slice::slice_to_vec;
use vstd::string::StringSliceAdditionalSpecFns;
use vstd::arithmetic::div_mod::lemma_fundamental_div_mod;
use crate::zip_list::{ZipList, EntrySpec};

verus! {

/// The mathematical value of a stored object.
pub enum ObjectSpec {
    Str(Seq<u8>),
    Int(i64),
    List(Seq<EntrySpec>),
}

pub open spec fn is_digit(b: u8) -> bool {
    48 <= b <= 57
}

pub open spec fn all_digits(s: Seq<u8>) -> bool {
    forall|i: int| 0 <= i < s.len() ==> is_digit(#[trigger] s[i])
}

/// The number denoted by a string of decimal digits.
pub open spec fn digits_val(s: Seq<u8>) -> int
    decreases s.len(),
{
    if s.len() == 0 {
        0
    } else {
        digits_val(s.take(s.len() - 1)) * 10 + (s.last() - 48)
    }
}

/// The digit part of a candidate literal: everything after a leading sign.
pub open spec fn literal_digits(s: Seq<u8>) -> Seq<u8> {
    if s.len() > 0 && s[0] == 45 {
        s.skip(1)
    } else {
        s
    }
}

/// `-?(0|[1-9][0-9]*)`: an optional sign, then digits with no leading zero
/// (except the single literal `0`).
pub open spec fn int_literal_form(s: Seq<u8>) -> bool {
    &&& s.len() > 0
    &&& literal_digits(s).len() > 0
    &&& all_digits(literal_digits(s))
    &&& !(literal_digits(s)[0] == 48 && literal_digits(s).len() > 1)
}

/// The signed value denoted by an integer literal.
pub open spec fn literal_value(s: Seq<u8>) -> int {
    if s.len() > 0 && s[0] == 45 {
        -digits_val(s.skip(1))
    } else {
        digits_val(s)
    }
}

/// What integer classification yields: the denoted value when the bytes form
/// an integer literal that fits in an `i64`, and nothing otherwise.
pub open spec fn spec_parse_int(s: Seq<u8>) -> Option<i64> {
    if int_literal_form(s) && -0x8000_0000_0000_0000 <= literal_value(s) <= 0x7FFF_FFFF_FFFF_FFFF {
        Some(literal_value(s) as i64)
    } else {
        None
    }
}

/// How a raw byte sequence is stored: as the integer it denotes, else as a string.
pub open spec fn obj_of_bytes(s: Seq<u8>) -> ObjectSpec {
    match spec_parse_int(s) {
        Some(n) => ObjectSpec::Int(n),
        None => ObjectSpec::Str(s),
    }
}

/// The decimal digits of `n`, most significant first.
pub open spec fn dec_digits(n: nat) -> Seq<u8>
    decreases n,
{
    if n < 10 {
        seq![(n + 48) as u8]
    } else {
        dec_digits(n / 10).push((n % 10 + 48) as u8)
    }
}

/// The decimal rendering of a signed 64-bit value.
pub open spec fn dec_i64(v: i64) -> Seq<u8> {
    if v < 0 {
        seq![45u8] + dec_digits((-(v as int)) as nat)
    } else {
        dec_digits(v as nat)
    }
}

/// The bytes an object renders to: strings as-is, integers in decimal.
pub open spec fn obj_bytes(o: ObjectSpec) -> Seq<u8>
    recommends !(o is List),
{
    match o {
        ObjectSpec::Str(s) => s,
        ObjectSpec::Int(i) => dec_i64(i),
        ObjectSpec::List(_) => Seq::empty(),
    }
}

/// A RESP bulk string framing the given payload.
pub open spec fn resp_bulk(data: Seq<u8>) -> Seq<u8> {
    seq![36u8] + dec_digits(data.len()) + seq![13u8, 10u8] + data + seq![13u8, 10u8]
}

/// A stored value is well formed when any list it holds satisfies the
/// ziplist layout invariant.
pub open spec fn obj_wf(o: RedisObject) -> bool {
    match o {
        RedisObject::List(z) => z.wf(),
        _ => true,
    }
}

/// The thing stored under a key.
#[derive(Clone, PartialEq)]
pub enum RedisObject {
    String(Vec<u8>),
    Int(i64),
    List(ZipList),
}

impl View for RedisObject {
    type V = ObjectSpec;

    open spec fn view(&self) -> ObjectSpec {
        match self {
            RedisObject::String(s) => ObjectSpec::Str(s@),
            RedisObject::Int(i) => ObjectSpec::Int(*i),
            RedisObject::List(z) => ObjectSpec::List(z@),
        }
    }
}

proof fn lemma_mul10_bound(m: nat, d: nat, bound: nat)
    requires
        d <= 9,
        d <= bound,
    ensures
        (m * 10 + d > bound) <==> (m > (bound - d) / 10),
{
    lemma_fundamental_div_mod((bound - d) as int, 10);
}

/// Classifies `bytes` as the integer they denote, when they form an integer
/// literal `-?(0|[1-9][0-9]*)` whose value fits in an `i64`.
pub fn try_parse_int(bytes: &[u8]) -> (r: Option<i64>)
    ensures
        r == spec_parse_int(bytes@),
{
    if bytes.len() == 0 {
        return None;
    }
    let is_negative: bool = bytes[0] == 45;
    let start: usize = if is_negative { 1 } else { 0 };
    if start >= bytes.len() {
        return None;
    }
    let ghost ds = if is_negative { bytes@.skip(1) } else { bytes@ };
    proof {
        assert(ds == literal_digits(bytes@));
    }
    if bytes[start] == 48 && bytes.len() > start + 1 {
        return None;
    }
    let bound: u64 = if is_negative { 0x8000_0000_0000_0000u64 } else { 0x7FFF_FFFF_FFFF_FFFFu64 };
    let mut m: u64 = 0;
    let mut i: usize = start;
    while i < bytes.len()
        invariant
            start <= i <= bytes@.len(),
            start < bytes@.len(),
            start == if is_negative { 1int } else { 0int },
            bound == if is_negative { 0x8000_0000_0000_0000u64 } else {
                0x7FFF_FFFF_FFFF_FFFFu64
            },
            ds == if is_negative { bytes@.skip(1) } else { bytes@ },
            is_negative == (bytes@[0] == 45),
            ds == literal_digits(bytes@),
            ds.len() == bytes@.len() - start,
            ds.len() > 0,
            !(ds[0] == 48 && ds.len() > 1),
            all_digits(ds.take(i - start)),
            m == digits_val(ds.take(i - start)),
            m <= bound,
        decreases bytes@.len() - i,
    {
        let b = bytes[i];
        if !(48 <= b && b <= 57) {
            proof {
                assert(ds[i - start] == bytes@[i as int]);
                assert(!is_digit(ds[i - start]));
                assert(!all_digits(ds));
                assert(!int_literal_form(bytes@));
            }
            return None;
        }
        let d: u64 = (b - 48) as u64;
        proof {
            lemma_mul10_bound(m as nat, d as nat, bound as nat);
            assert(ds[i - start] == bytes@[i as int]);
            assert(ds.take(i - start + 1).take(i - start) =~= ds.take(i - start));
            assert(ds.take(i - start + 1).last() == ds[i - start]);
            assert forall|j: int| 0 <= j < i - start + 1 implies
                is_digit(#[trigger] ds.take(i - start + 1)[j]) by {
                if j < i - start {
                    assert(ds.take(i - start + 1)[j] == ds.take(i - start)[j]);
                }
            }
            assert(digits_val(ds.take(i - start + 1)) == m * 10 + d);
        }
        if m > (bound - d) / 10 {
            // The value cannot fit: the digits seen so far already exceed the
            // i64 range, and further digits only grow the magnitude.
            proof {
                if all_digits(ds) {
                    lemma_digits_val_monotone(ds, ds.len() as int);
                    assert(ds.take(ds.len() as int) =~= ds);
                    assert(digits_val(ds.take(i - start + 1)) <= digits_val(ds.take(ds.len() as int)));
                    assert(digits_val(ds) > bound);
                    assert(literal_value(bytes@) == if is_negative { -digits_val(ds) } else {
                        digits_val(ds)
                    });
                    assert(spec_parse_int(bytes@) is None);
                } else {
                    assert(!int_literal_form(bytes@));
                }
            }
            return None;
        }
        m = m * 10 + d;
        i = i + 1;
    }
    proof {
        assert(ds.take(ds.len() as int) =~= ds);
        assert(int_literal_form(bytes@));
        assert(literal_value(bytes@) == if is_negative { -(m as int) } else { m as int });
    }
    if is_negative {
        if m == 0x8000_0000_0000_0000u64 {
            Some(i64::MIN)
        } else {
            Some(-(m as i64))
        }
    } else {
        Some(m as i64)
    }
}

/// Appending digits never shrinks the denoted value: every prefix of a digit
/// string denotes at most what the whole string denotes.
proof fn lemma_digits_val_monotone(s: Seq<u8>, k: int)
    requires
        0 <= k <= s.len(),
        all_digits(s.take(k)),
    ensures
        forall|j: int| 0 <= j <= k ==> digits_val(#[trigger] s.take(j)) <= digits_val(s.take(k)),
        digits_val(s.take(k)) >= 0,
    decreases k,
{
    if k > 0 {
        assert(s.take(k).take(k - 1) =~= s.take(k - 1));
        assert(all_digits(s.take(k - 1)));
        lemma_digits_val_monotone(s, k - 1);
        assert(digits_val(s.take(k)) == digits_val(s.take(k - 1)) * 10 + (s.take(k).last() - 48));
        assert(digits_val(s.take(k - 1)) * 10 >= digits_val(s.take(k - 1))) by (nonlinear_arith)
            requires digits_val(s.take(k - 1)) >= 0;
    }
}

/// Pushes the decimal digits of `m` onto `v`, most significant first.
pub fn push_digits(v: &mut Vec<u8>, m: u64)
    ensures
        final(v)@ == old(v)@ + dec_digits(m as nat),
    decreases m,
{
    if m >= 10 {
        push_digits(v, m / 10);
    }
    v.push((m % 10) as u8 + 48);
}

/// Renders a signed 64-bit value in decimal.
pub fn i64_to_dec(value: i64) -> (r: Vec<u8>)
    ensures
        r@ == dec_i64(value),
{
    let mut out: Vec<u8> = Vec::new();
    let m: u64;
    if value >= 0 {
        m = value as u64;
    } else {
        out.push(45u8);
        if value == i64::MIN {
            m = 0x8000_0000_0000_0000u64;
        } else {
            m = (-value) as u64;
        }
    }
    push_digits(&mut out, m);
    out
}

impl RedisObject {
    /// Classifies raw bytes: the denoted integer when they form an `i64`
    /// literal, otherwise a string holding the bytes unchanged.
    pub fn new_from_bytes(bytes: &[u8]) -> (r: RedisObject)
        ensures
            r@ == obj_of_bytes(bytes@),
    {
        Self::get_redis_object(bytes)
    }

    /// The classification itself: the denoted integer or the raw string.
    pub fn get_redis_object(bytes: &[u8]) -> (r: RedisObject)
        ensures
            r@ == obj_of_bytes(bytes@),
    {
        match try_parse_int(bytes) {
            Some(num) => RedisObject::Int(num),
            None => RedisObject::String(slice_to_vec(bytes)),
        }
    }

    /// The raw bytes of a scalar value: strings as-is, integers in decimal.
    pub fn to_bytes(&self) -> (r: Vec<u8>)
        requires
            !(self@ is List),
        ensures
            r@ == obj_bytes(self@),
    {
        match self {
            RedisObject::String(s) => slice_to_vec(s.as_slice()),
            RedisObject::Int(i) => i64_to_dec(*i),
            RedisObject::List(_) => {
                proof {
                    assert(false);
                }
                Vec::new()
            }
        }
    }

    /// The RESP bulk-string reply carrying this scalar value.
    pub fn to_resp(&self) -> (r: Vec<u8>)
        requires
            !(self@ is List),
        ensures
            r@ == resp_bulk(obj_bytes(self@)),
    {
        let data = self.to_bytes();
        let mut result: Vec<u8> = Vec::new();
        result.push(36u8);
        push_digits(&mut result, data.len() as u64);
        result.push(13u8);
        result.push(10u8);
        crate::connection::append_slice(&mut result, data.as_slice());
        result.push(13u8);
        result.push(10u8);
        proof {
            assert(result@ =~= resp_bulk(obj_bytes(self@)));
        }
        result
    }
}

} // verus!
