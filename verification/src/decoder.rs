//! The decoder: walks a list of type descriptors against a byte buffer,
//! consuming each field's fixed width in order and interpreting its bytes
//! under the chosen byte order.

use crate::prim::{
    bits_to_i128, bits_to_i16, bits_to_i32, bits_to_i64, bits_to_i8, copy_range, int_value_of,
    lemma_int_value_bound, lemma_pow256_values, read_int_bytes, signed_value,
};
use vstd::prelude::*;
use vstd::utf8::{decode_utf8, valid_utf8};

verus! {

/// One decoded field, tagged with the type it was decoded as.
#[derive(Debug, Clone)]
pub enum DecodedData {
    /// An 8-bit signed integer.
    Int8(i8),
    /// A 16-bit signed integer.
    Int16(i16),
    /// A 32-bit signed integer.
    Int32(i32),
    /// A 64-bit signed integer.
    Int64(i64),
    /// A 128-bit signed integer.
    Int128(i128),
    /// An 8-bit unsigned integer.
    Uint8(u8),
    /// A 16-bit unsigned integer.
    Uint16(u16),
    /// A 32-bit unsigned integer.
    Uint32(u32),
    /// A 64-bit unsigned integer.
    Uint64(u64),
    /// A 128-bit unsigned integer.
    Uint128(u128),
    /// A string decoded from UTF-8 bytes.
    Str(String),
    /// A raw byte sequence, copied verbatim.
    Bytes(Vec<u8>),
}

impl vstd::std_specs::cmp::PartialEqSpecImpl for DecodedData {
    open spec fn obeys_eq_spec() -> bool {
        true
    }

    open spec fn eq_spec(&self, other: &Self) -> bool {
        match (self, other) {
            (DecodedData::Int8(a), DecodedData::Int8(b)) => a == b,
            (DecodedData::Int16(a), DecodedData::Int16(b)) => a == b,
            (DecodedData::Int32(a), DecodedData::Int32(b)) => a == b,
            (DecodedData::Int64(a), DecodedData::Int64(b)) => a == b,
            (DecodedData::Int128(a), DecodedData::Int128(b)) => a == b,
            (DecodedData::Uint8(a), DecodedData::Uint8(b)) => a == b,
            (DecodedData::Uint16(a), DecodedData::Uint16(b)) => a == b,
            (DecodedData::Uint32(a), DecodedData::Uint32(b)) => a == b,
            (DecodedData::Uint64(a), DecodedData::Uint64(b)) => a == b,
            (DecodedData::Uint128(a), DecodedData::Uint128(b)) => a == b,
            (DecodedData::Str(a), DecodedData::Str(b)) => a@ == b@,
            (DecodedData::Bytes(a), DecodedData::Bytes(b)) => a@ == b@,
            _ => false,
        }
    }
}

impl PartialEq for DecodedData {
    /// Two decoded fields are equal when they carry the same tag and the
    /// same value (same characters for `Str`, same bytes for `Bytes`).
    fn eq(&self, other: &Self) -> (r: bool) {
        match (self, other) {
            (DecodedData::Int8(a), DecodedData::Int8(b)) => *a == *b,
            (DecodedData::Int16(a), DecodedData::Int16(b)) => *a == *b,
            (DecodedData::Int32(a), DecodedData::Int32(b)) => *a == *b,
            (DecodedData::Int64(a), DecodedData::Int64(b)) => *a == *b,
            (DecodedData::Int128(a), DecodedData::Int128(b)) => *a == *b,
            (DecodedData::Uint8(a), DecodedData::Uint8(b)) => *a == *b,
            (DecodedData::Uint16(a), DecodedData::Uint16(b)) => *a == *b,
            (DecodedData::Uint32(a), DecodedData::Uint32(b)) => *a == *b,
            (DecodedData::Uint64(a), DecodedData::Uint64(b)) => *a == *b,
            (DecodedData::Uint128(a), DecodedData::Uint128(b)) => *a == *b,
            (DecodedData::Str(a), DecodedData::Str(b)) => *a == *b,
            (DecodedData::Bytes(a), DecodedData::Bytes(b)) => {
                let r = *a == *b;
                proof {
                    if a@ == b@ {
                        assert(r);
                    }
                    if r {
                        assert(a@ =~= b@);
                    }
                }
                r
            },
            _ => false,
        }
    }
}

/// A type descriptor telling the decoder how to interpret the next bytes.
/// Integer tags fix the width; `Str` and `Bytes` carry the explicit byte
/// length to consume.
#[derive(Debug, Clone)]
pub enum DecodeType {
    /// The next byte is a signed 8-bit integer.
    Int8,
    /// The next 2 bytes are a signed 16-bit integer.
    Int16,
    /// The next 4 bytes are a signed 32-bit integer.
    Int32,
    /// The next 8 bytes are a signed 64-bit integer.
    Int64,
    /// The next 16 bytes are a signed 128-bit integer.
    Int128,
    /// The next byte is an unsigned 8-bit integer.
    Uint8,
    /// The next 2 bytes are an unsigned 16-bit integer.
    Uint16,
    /// The next 4 bytes are an unsigned 32-bit integer.
    Uint32,
    /// The next 8 bytes are an unsigned 64-bit integer.
    Uint64,
    /// The next 16 bytes are an unsigned 128-bit integer.
    Uint128,
    /// The next `n` bytes are the UTF-8 encoding of a string.
    Str(usize),
    /// The next `n` bytes are a raw byte sequence.
    Bytes(usize),
}

/// The byte order assumed for every integer field of one decoding call.
#[derive(Debug, Clone)]
pub enum DecodeOrder {
    /// Most significant byte first.
    Big,
    /// Least significant byte first.
    Little,
}

/// A decoding error.
#[derive(Debug, Clone)]
pub enum DecodeError {
    /// The bytes of the field at the given position in the descriptor list
    /// cannot be interpreted as the requested type.
    InvalidData(usize),
    /// The buffer is shorter than the schedule requires.
    IndexOutOfBounds,
}

/// The number of bytes a descriptor consumes.
pub open spec fn dwidth(t: DecodeType) -> nat {
    match t {
        DecodeType::Int8 => 1,
        DecodeType::Int16 => 2,
        DecodeType::Int32 => 4,
        DecodeType::Int64 => 8,
        DecodeType::Int128 => 16,
        DecodeType::Uint8 => 1,
        DecodeType::Uint16 => 2,
        DecodeType::Uint32 => 4,
        DecodeType::Uint64 => 8,
        DecodeType::Uint128 => 16,
        DecodeType::Str(n) => n as nat,
        DecodeType::Bytes(n) => n as nat,
    }
}

/// The read cursor in front of field `i`: the sum of the widths of the first
/// `i` descriptors.
pub open spec fn doffset(ts: Seq<DecodeType>, i: int) -> nat
    decreases i,
{
    if i <= 0 {
        0
    } else {
        (doffset(ts, i - 1) + dwidth(ts[i - 1])) as nat
    }
}

/// The total number of bytes the schedule consumes.
pub open spec fn schedule_width(ts: Seq<DecodeType>) -> nat {
    doffset(ts, ts.len() as int)
}

/// The bytes of field `i`: the buffer from its cursor to cursor plus width.
pub open spec fn field_slice(ts: Seq<DecodeType>, buf: Seq<u8>, i: int) -> Seq<u8> {
    buf.subrange(doffset(ts, i) as int, (doffset(ts, i) + dwidth(ts[i])) as int)
}

/// Whether field `i` lies entirely within the buffer.
pub open spec fn field_fits(ts: Seq<DecodeType>, buf: Seq<u8>, i: int) -> bool {
    doffset(ts, i) + dwidth(ts[i]) <= buf.len()
}

/// Whether field `i` is a string field over bytes that are not valid UTF-8:
/// the only per-field data failure the decoder can hit.
pub open spec fn str_invalid(ts: Seq<DecodeType>, buf: Seq<u8>, i: int) -> bool {
    ts[i] matches DecodeType::Str(_) && !valid_utf8(field_slice(ts, buf, i))
}

/// The first error the decoder hits at or after field `i`: a bounds failure
/// the moment a field overruns the buffer, an invalid-data failure on a
/// string field whose bytes are not UTF-8, and `None` when every remaining
/// field decodes.
pub open spec fn first_err_from(ts: Seq<DecodeType>, buf: Seq<u8>, i: int) -> Option<DecodeError>
    decreases ts.len() - i,
{
    if i < 0 || i >= ts.len() {
        None
    } else if !field_fits(ts, buf, i) {
        Some(DecodeError::IndexOutOfBounds)
    } else if str_invalid(ts, buf, i) {
        Some(DecodeError::InvalidData(i as usize))
    } else {
        first_err_from(ts, buf, i + 1)
    }
}

/// The error that decoding the whole schedule against the buffer produces,
/// or `None` when decoding succeeds.
pub open spec fn decode_err(ts: Seq<DecodeType>, buf: Seq<u8>) -> Option<DecodeError> {
    first_err_from(ts, buf, 0)
}

/// What the decoded field must be, given its descriptor and its bytes:
/// integers are the base-256 value of the bytes in the chosen byte order
/// (read back through two's complement for the signed tags), strings are the
/// characters the bytes encode, and byte fields are the bytes themselves.
pub open spec fn field_matches(d: DecodedData, t: DecodeType, bytes: Seq<u8>, little: bool) -> bool {
    match t {
        DecodeType::Int8 => d matches DecodedData::Int8(x) && x as int == signed_value(
            int_value_of(bytes, little),
            1,
        ),
        DecodeType::Int16 => d matches DecodedData::Int16(x) && x as int == signed_value(
            int_value_of(bytes, little),
            2,
        ),
        DecodeType::Int32 => d matches DecodedData::Int32(x) && x as int == signed_value(
            int_value_of(bytes, little),
            4,
        ),
        DecodeType::Int64 => d matches DecodedData::Int64(x) && x as int == signed_value(
            int_value_of(bytes, little),
            8,
        ),
        DecodeType::Int128 => d matches DecodedData::Int128(x) && x as int == signed_value(
            int_value_of(bytes, little),
            16,
        ),
        DecodeType::Uint8 => d matches DecodedData::Uint8(x) && x as nat == int_value_of(
            bytes,
            little,
        ),
        DecodeType::Uint16 => d matches DecodedData::Uint16(x) && x as nat == int_value_of(
            bytes,
            little,
        ),
        DecodeType::Uint32 => d matches DecodedData::Uint32(x) && x as nat == int_value_of(
            bytes,
            little,
        ),
        DecodeType::Uint64 => d matches DecodedData::Uint64(x) && x as nat == int_value_of(
            bytes,
            little,
        ),
        DecodeType::Uint128 => d matches DecodedData::Uint128(x) && x as nat == int_value_of(
            bytes,
            little,
        ),
        DecodeType::Str(_) => d matches DecodedData::Str(s) && s@ == decode_utf8(bytes),
        DecodeType::Bytes(_) => d matches DecodedData::Bytes(b) && b@ == bytes,
    }
}

/// What the whole decoded sequence must be: one matching field per
/// descriptor, in input order, each over its own slice of the buffer.
pub open spec fn decoded_ok(
    ts: Seq<DecodeType>,
    buf: Seq<u8>,
    little: bool,
    ds: Seq<DecodedData>,
) -> bool {
    &&& ds.len() == ts.len()
    &&& forall|i: int|
        0 <= i < ts.len() ==> field_matches(
            #[trigger] ds[i],
            ts[i],
            field_slice(ts, buf, i),
            little,
        )
}

/// Relies on `String::from_utf8`: it succeeds exactly when the bytes are
/// valid UTF-8, and then returns the string whose characters those bytes
/// encode.
#[verifier::external_body]
fn string_from_utf8(bytes: Vec<u8>) -> (r: Option<String>)
    ensures
        r is Some <==> valid_utf8(bytes@),
        r matches Some(s) ==> s@ == decode_utf8(bytes@),
{
    String::from_utf8(bytes).ok()
}

/// Decodes the buffer into one value per descriptor, in input order. The
/// result is `Ok` exactly when [`decode_err`] finds no failure, and then the
/// values satisfy [`decoded_ok`]; otherwise the first failure is returned:
/// `IndexOutOfBounds` when a field overruns the buffer, `InvalidData(i)`
/// when the string field at position `i` covers bytes that are not UTF-8.
/// An empty schedule decodes to an empty sequence whatever the buffer holds;
/// trailing bytes after the schedule's total width are ignored.
pub fn decode_packed(
    types: &[DecodeType],
    buffer: &[u8],
    decode_order: DecodeOrder,
) -> (r: Result<Vec<DecodedData>, DecodeError>)
    ensures
        match r {
            Ok(ds) => decode_err(types@, buffer@) is None && decoded_ok(
                types@,
                buffer@,
                decode_order is Little,
                ds@,
            ),
            Err(e) => decode_err(types@, buffer@) == Some(e),
        },
        types@.len() == 0 ==> (r matches Ok(ds) && ds@.len() == 0),
{
    let little = match &decode_order {
        DecodeOrder::Little => true,
        DecodeOrder::Big => false,
    };
    let mut out: Vec<DecodedData> = Vec::new();
    let mut cursor: usize = 0;
    let mut idx: usize = 0;
    while idx < types.len()
        invariant
            idx <= types@.len(),
            cursor as nat == doffset(types@, idx as int),
            cursor <= buffer@.len(),
            out@.len() == idx as nat,
            first_err_from(types@, buffer@, 0) == first_err_from(types@, buffer@, idx as int),
            forall|j: int|
                0 <= j < idx ==> field_matches(
                    #[trigger] out@[j],
                    types@[j],
                    field_slice(types@, buffer@, j),
                    little,
                ),
            little == (decode_order is Little),
        decreases types@.len() - idx,
    {
        let w: usize = match &types[idx] {
            DecodeType::Int8 => 1,
            DecodeType::Int16 => 2,
            DecodeType::Int32 => 4,
            DecodeType::Int64 => 8,
            DecodeType::Int128 => 16,
            DecodeType::Uint8 => 1,
            DecodeType::Uint16 => 2,
            DecodeType::Uint32 => 4,
            DecodeType::Uint64 => 8,
            DecodeType::Uint128 => 16,
            DecodeType::Str(n) => *n,
            DecodeType::Bytes(n) => *n,
        };
        proof {
            assert(w as nat == dwidth(types@[idx as int]));
        }
        if buffer.len() - cursor < w {
            proof {
                assert(!field_fits(types@, buffer@, idx as int));
            }
            return Err(DecodeError::IndexOutOfBounds);
        }
        let ghost slice = field_slice(types@, buffer@, idx as int);
        proof {
            assert(slice =~= buffer@.subrange(cursor as int, cursor + w));
            lemma_int_value_bound(slice, little);
            lemma_pow256_values();
        }
        match &types[idx] {
            DecodeType::Int8 => {
                let u = read_int_bytes(buffer, cursor, 1, little);
                out.push(DecodedData::Int8(bits_to_i8(u as u8)));
            },
            DecodeType::Int16 => {
                let u = read_int_bytes(buffer, cursor, 2, little);
                out.push(DecodedData::Int16(bits_to_i16(u as u16)));
            },
            DecodeType::Int32 => {
                let u = read_int_bytes(buffer, cursor, 4, little);
                out.push(DecodedData::Int32(bits_to_i32(u as u32)));
            },
            DecodeType::Int64 => {
                let u = read_int_bytes(buffer, cursor, 8, little);
                out.push(DecodedData::Int64(bits_to_i64(u as u64)));
            },
            DecodeType::Int128 => {
                let u = read_int_bytes(buffer, cursor, 16, little);
                out.push(DecodedData::Int128(bits_to_i128(u)));
            },
            DecodeType::Uint8 => {
                let u = read_int_bytes(buffer, cursor, 1, little);
                out.push(DecodedData::Uint8(u as u8));
            },
            DecodeType::Uint16 => {
                let u = read_int_bytes(buffer, cursor, 2, little);
                out.push(DecodedData::Uint16(u as u16));
            },
            DecodeType::Uint32 => {
                let u = read_int_bytes(buffer, cursor, 4, little);
                out.push(DecodedData::Uint32(u as u32));
            },
            DecodeType::Uint64 => {
                let u = read_int_bytes(buffer, cursor, 8, little);
                out.push(DecodedData::Uint64(u as u64));
            },
            DecodeType::Uint128 => {
                let u = read_int_bytes(buffer, cursor, 16, little);
                out.push(DecodedData::Uint128(u));
            },
            DecodeType::Str(_) => {
                let bs = copy_range(buffer, cursor, w);
                match string_from_utf8(bs) {
                    Some(s) => {
                        out.push(DecodedData::Str(s));
                    },
                    None => {
                        proof {
                            assert(str_invalid(types@, buffer@, idx as int));
                        }
                        return Err(DecodeError::InvalidData(idx));
                    },
                }
            },
            DecodeType::Bytes(_) => {
                let bs = copy_range(buffer, cursor, w);
                out.push(DecodedData::Bytes(bs));
            },
        }
        proof {
            assert(!str_invalid(types@, buffer@, idx as int));
            assert(first_err_from(types@, buffer@, idx as int) == first_err_from(
                types@,
                buffer@,
                idx + 1,
            ));
            assert(field_matches(out@[idx as int], types@[idx as int], slice, little));
        }
        cursor = cursor + w;
        idx = idx + 1;
    }
    proof {
        assert(first_err_from(types@, buffer@, types@.len() as int) is None);
    }
    Ok(out)
}

} // verus!
