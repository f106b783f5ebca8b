//! The encoder: turns an ordered sequence of tagged values into one packed
//! byte buffer, applying the chosen byte order to every multi-byte integer.

use crate::prim::{
    append_slice, i128_to_bits, i16_to_bits, i32_to_bits, i64_to_bits, i8_to_bits, int_bytes_of,
    lemma_int_bytes_len, push_int_bytes, unsigned_repr,
};
use vstd::prelude::*;
use vstd::utf8::encode_utf8;

verus! {

/// A value to encode, tagged with how to encode it. Integer tags carry the
/// integer to write; `Str` and `Bytes` carry a length-determined payload that
/// is copied verbatim (strings as their UTF-8 bytes).
#[derive(Debug, Clone)]
pub enum EncodeType {
    /// An 8-bit signed integer.
    Int8(i8),
    /// A 16-bit signed integer.
    Int16(i16),
    /// A 32-bit signed integer.
    Int32(i32),
    /// A 64-bit signed integer.
    Int64(i64),
    /// A 128-bit signed integer.
    Int128(i128),
    /// An 8-bit unsigned integer.
    Uint8(u8),
    /// A 16-bit unsigned integer.
    Uint16(u16),
    /// A 32-bit unsigned integer.
    Uint32(u32),
    /// A 64-bit unsigned integer.
    Uint64(u64),
    /// A 128-bit unsigned integer.
    Uint128(u128),
    /// A string, written as its UTF-8 bytes with no terminator or prefix.
    Str(String),
    /// A raw byte sequence, written verbatim.
    Bytes(Vec<u8>),
}

impl vstd::std_specs::cmp::PartialEqSpecImpl for EncodeType {
    open spec fn obeys_eq_spec() -> bool {
        true
    }

    open spec fn eq_spec(&self, other: &Self) -> bool {
        match (self, other) {
            (EncodeType::Int8(a), EncodeType::Int8(b)) => a == b,
            (EncodeType::Int16(a), EncodeType::Int16(b)) => a == b,
            (EncodeType::Int32(a), EncodeType::Int32(b)) => a == b,
            (EncodeType::Int64(a), EncodeType::Int64(b)) => a == b,
            (EncodeType::Int128(a), EncodeType::Int128(b)) => a == b,
            (EncodeType::Uint8(a), EncodeType::Uint8(b)) => a == b,
            (EncodeType::Uint16(a), EncodeType::Uint16(b)) => a == b,
            (EncodeType::Uint32(a), EncodeType::Uint32(b)) => a == b,
            (EncodeType::Uint64(a), EncodeType::Uint64(b)) => a == b,
            (EncodeType::Uint128(a), EncodeType::Uint128(b)) => a == b,
            (EncodeType::Str(a), EncodeType::Str(b)) => a@ == b@,
            (EncodeType::Bytes(a), EncodeType::Bytes(b)) => a@ == b@,
            _ => false,
        }
    }
}

impl PartialEq for EncodeType {
    /// Two values to encode are equal when they carry the same tag and the
    /// same payload (same characters for `Str`, same bytes for `Bytes`).
    fn eq(&self, other: &Self) -> (r: bool) {
        match (self, other) {
            (EncodeType::Int8(a), EncodeType::Int8(b)) => *a == *b,
            (EncodeType::Int16(a), EncodeType::Int16(b)) => *a == *b,
            (EncodeType::Int32(a), EncodeType::Int32(b)) => *a == *b,
            (EncodeType::Int64(a), EncodeType::Int64(b)) => *a == *b,
            (EncodeType::Int128(a), EncodeType::Int128(b)) => *a == *b,
            (EncodeType::Uint8(a), EncodeType::Uint8(b)) => *a == *b,
            (EncodeType::Uint16(a), EncodeType::Uint16(b)) => *a == *b,
            (EncodeType::Uint32(a), EncodeType::Uint32(b)) => *a == *b,
            (EncodeType::Uint64(a), EncodeType::Uint64(b)) => *a == *b,
            (EncodeType::Uint128(a), EncodeType::Uint128(b)) => *a == *b,
            (EncodeType::Str(a), EncodeType::Str(b)) => *a == *b,
            (EncodeType::Bytes(a), EncodeType::Bytes(b)) => {
                let r = *a == *b;
                proof {
                    if a@ == b@ {
                        assert(r);
                    }
                    if r {
                        assert(a@ =~= b@);
                    }
                }
                r
            },
            _ => false,
        }
    }
}

/// An encoding error, carrying the value that failed to serialize. The
/// encoder always sizes each field's region to exactly the value's width, so
/// no variant is ever produced; the type exists as the defensive error
/// channel of [`encode_packed`].
#[derive(Debug, Clone)]
pub enum EncodeError {
    Int8(i8),
    Int16(i16),
    Int32(i32),
    Int64(i64),
    Int128(i128),
    Uint8(u8),
    Uint16(u16),
    Uint32(u32),
    Uint64(u64),
    Uint128(u128),
    Str(String),
    Bytes(Vec<u8>),
}

/// The byte order applied to every integer field of one encoding call.
#[derive(Debug, Clone)]
pub enum EncodeOrder {
    /// Most significant byte first.
    Big,
    /// Least significant byte first.
    Little,
}

/// The number of bytes that `v` occupies in the packed layout: the fixed
/// width of its integer tag, or the payload length for `Str` and `Bytes`.
pub open spec fn width_of(v: EncodeType) -> nat {
    match v {
        EncodeType::Int8(_) => 1,
        EncodeType::Int16(_) => 2,
        EncodeType::Int32(_) => 4,
        EncodeType::Int64(_) => 8,
        EncodeType::Int128(_) => 16,
        EncodeType::Uint8(_) => 1,
        EncodeType::Uint16(_) => 2,
        EncodeType::Uint32(_) => 4,
        EncodeType::Uint64(_) => 8,
        EncodeType::Uint128(_) => 16,
        EncodeType::Str(s) => encode_utf8(s@).len(),
        EncodeType::Bytes(b) => b@.len(),
    }
}

/// The bytes that encoding `v` produces: the base-256 digits of the integer
/// (two's complement for the signed tags) in the chosen byte order, the UTF-8
/// bytes of a string, or a byte payload verbatim.
pub open spec fn field_bytes(v: EncodeType, little: bool) -> Seq<u8> {
    match v {
        EncodeType::Int8(x) => int_bytes_of(unsigned_repr(x as int, 1), 1, little),
        EncodeType::Int16(x) => int_bytes_of(unsigned_repr(x as int, 2), 2, little),
        EncodeType::Int32(x) => int_bytes_of(unsigned_repr(x as int, 4), 4, little),
        EncodeType::Int64(x) => int_bytes_of(unsigned_repr(x as int, 8), 8, little),
        EncodeType::Int128(x) => int_bytes_of(unsigned_repr(x as int, 16), 16, little),
        EncodeType::Uint8(x) => int_bytes_of(x as nat, 1, little),
        EncodeType::Uint16(x) => int_bytes_of(x as nat, 2, little),
        EncodeType::Uint32(x) => int_bytes_of(x as nat, 4, little),
        EncodeType::Uint64(x) => int_bytes_of(x as nat, 8, little),
        EncodeType::Uint128(x) => int_bytes_of(x as nat, 16, little),
        EncodeType::Str(s) => encode_utf8(s@),
        EncodeType::Bytes(b) => b@,
    }
}

/// The bytes that encoding the whole value sequence produces: each field's
/// bytes laid back to back, in input order, with no padding.
pub open spec fn packed_bytes(vs: Seq<EncodeType>, little: bool) -> Seq<u8>
    decreases vs.len(),
{
    if vs.len() == 0 {
        Seq::empty()
    } else {
        field_bytes(vs[0], little) + packed_bytes(vs.drop_first(), little)
    }
}

/// The total width of a value sequence: the sum of each field's width.
pub open spec fn total_width(vs: Seq<EncodeType>) -> nat
    decreases vs.len(),
{
    if vs.len() == 0 {
        0
    } else {
        width_of(vs[0]) + total_width(vs.drop_first())
    }
}

/// A field's bytes are exactly as wide as its width.
pub proof fn lemma_field_bytes_len(v: EncodeType, little: bool)
    ensures
        field_bytes(v, little).len() == width_of(v),
{
    match v {
        EncodeType::Int8(x) => lemma_int_bytes_len(unsigned_repr(x as int, 1), 1, little),
        EncodeType::Int16(x) => lemma_int_bytes_len(unsigned_repr(x as int, 2), 2, little),
        EncodeType::Int32(x) => lemma_int_bytes_len(unsigned_repr(x as int, 4), 4, little),
        EncodeType::Int64(x) => lemma_int_bytes_len(unsigned_repr(x as int, 8), 8, little),
        EncodeType::Int128(x) => lemma_int_bytes_len(unsigned_repr(x as int, 16), 16, little),
        EncodeType::Uint8(x) => lemma_int_bytes_len(x as nat, 1, little),
        EncodeType::Uint16(x) => lemma_int_bytes_len(x as nat, 2, little),
        EncodeType::Uint32(x) => lemma_int_bytes_len(x as nat, 4, little),
        EncodeType::Uint64(x) => lemma_int_bytes_len(x as nat, 8, little),
        EncodeType::Uint128(x) => lemma_int_bytes_len(x as nat, 16, little),
        EncodeType::Str(_) => {},
        EncodeType::Bytes(_) => {},
    }
}

/// The packed bytes of a value sequence are exactly as long as the sum of the
/// fields' widths.
pub proof fn lemma_packed_bytes_len(vs: Seq<EncodeType>, little: bool)
    ensures
        packed_bytes(vs, little).len() == total_width(vs),
    decreases vs.len(),
{
    if vs.len() > 0 {
        lemma_field_bytes_len(vs[0], little);
        lemma_packed_bytes_len(vs.drop_first(), little);
    }
}

/// Appending one more value to the sequence appends that value's bytes to the
/// packed buffer.
pub proof fn lemma_packed_bytes_push(vs: Seq<EncodeType>, v: EncodeType, little: bool)
    ensures
        packed_bytes(vs.push(v), little) == packed_bytes(vs, little) + field_bytes(v, little),
    decreases vs.len(),
{
    if vs.len() == 0 {
        let p = vs.push(v);
        assert(p.len() == 1);
        assert(p[0] == v);
        assert(p.drop_first() =~= Seq::<EncodeType>::empty());
        assert(packed_bytes(p, little) == field_bytes(p[0], little) + packed_bytes(
            p.drop_first(),
            little,
        ));
        assert(packed_bytes(p.drop_first(), little) == Seq::<u8>::empty());
        assert(packed_bytes(p, little) =~= packed_bytes(vs, little) + field_bytes(v, little));
    } else {
        assert(vs.push(v)[0] == vs[0]);
        assert(vs.push(v).drop_first() =~= vs.drop_first().push(v));
        lemma_packed_bytes_push(vs.drop_first(), v, little);
        assert(packed_bytes(vs.push(v), little) =~= packed_bytes(vs, little) + field_bytes(
            v,
            little,
        ));
    }
}

/// Encodes the given values into one packed byte buffer, laying the fields
/// back to back in input order under the chosen byte order. Encoding always
/// succeeds; the buffer is exactly [`packed_bytes`] of the input, and its
/// length is the sum of the fields' widths.
pub fn encode_packed(elements: &[EncodeType], endian: EncodeOrder) -> (r: Result<
    Vec<u8>,
    EncodeError,
>)
    ensures
        r is Ok,
        r matches Ok(buf) ==> {
            &&& buf@ == packed_bytes(elements@, endian is Little)
            &&& buf@.len() == total_width(elements@)
        },
{
    let little = match &endian {
        EncodeOrder::Little => true,
        EncodeOrder::Big => false,
    };
    let mut buffer: Vec<u8> = Vec::new();
    let mut i: usize = 0;
    while i < elements.len()
        invariant
            i <= elements@.len(),
            buffer@ == packed_bytes(elements@.take(i as int), little),
            little == (endian is Little),
        decreases elements@.len() - i,
    {
        match &elements[i] {
            EncodeType::Int8(x) => {
                let u = i8_to_bits(*x);
                push_int_bytes(&mut buffer, u as u128, 1, little);
            },
            EncodeType::Int16(x) => {
                let u = i16_to_bits(*x);
                push_int_bytes(&mut buffer, u as u128, 2, little);
            },
            EncodeType::Int32(x) => {
                let u = i32_to_bits(*x);
                push_int_bytes(&mut buffer, u as u128, 4, little);
            },
            EncodeType::Int64(x) => {
                let u = i64_to_bits(*x);
                push_int_bytes(&mut buffer, u as u128, 8, little);
            },
            EncodeType::Int128(x) => {
                let u = i128_to_bits(*x);
                push_int_bytes(&mut buffer, u, 16, little);
            },
            EncodeType::Uint8(x) => {
                push_int_bytes(&mut buffer, *x as u128, 1, little);
            },
            EncodeType::Uint16(x) => {
                push_int_bytes(&mut buffer, *x as u128, 2, little);
            },
            EncodeType::Uint32(x) => {
                push_int_bytes(&mut buffer, *x as u128, 4, little);
            },
            EncodeType::Uint64(x) => {
                push_int_bytes(&mut buffer, *x as u128, 8, little);
            },
            EncodeType::Uint128(x) => {
                push_int_bytes(&mut buffer, *x, 16, little);
            },
            EncodeType::Str(s) => {
                append_slice(&mut buffer, s.as_str().as_bytes());
            },
            EncodeType::Bytes(b) => {
                append_slice(&mut buffer, b.as_slice());
            },
        }
        proof {
            assert(elements@.take(i + 1) =~= elements@.take(i as int).push(elements@[i as int]));
            lemma_packed_bytes_push(elements@.take(i as int), elements@[i as int], little);
        }
        i = i + 1;
    }
    proof {
        assert(elements@.take(elements@.len() as int) =~= elements@);
        lemma_packed_bytes_len(elements@, little);
    }
    Ok(buffer)
}

} // verus!
