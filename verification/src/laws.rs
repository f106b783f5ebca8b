//! The laws relating the encoder and the decoder: a schedule that matches a
//! value sequence decodes the encoder's output back to those values; a
//! buffer shorter than the schedule never decodes; a truncated encoding
//! fails with the bounds error; a string field over bytes that are not
//! UTF-8 fails with the invalid-data error at its own position.

use crate::decoder::{
    decode_err, decoded_ok, doffset, dwidth, field_fits, field_matches, field_slice,
    first_err_from, schedule_width, str_invalid, DecodeError, DecodeType, DecodedData,
};
use crate::encoder::{
    field_bytes, lemma_field_bytes_len, lemma_packed_bytes_len, packed_bytes, total_width,
    width_of, EncodeType,
};
use crate::prim::{
    lemma_int_round_trip, lemma_pow256_values, lemma_signed_round_trip, unsigned_repr,
};
use vstd::prelude::*;
use vstd::utf8::{encode_utf8, encode_utf8_decode_utf8, encode_utf8_valid_utf8};

verus! {

/// Whether a descriptor matches a value: the same tag, and for `Str` and
/// `Bytes` the descriptor's byte length equals the payload's byte length.
pub open spec fn tag_matches(t: DecodeType, v: EncodeType) -> bool {
    match v {
        EncodeType::Int8(_) => t is Int8,
        EncodeType::Int16(_) => t is Int16,
        EncodeType::Int32(_) => t is Int32,
        EncodeType::Int64(_) => t is Int64,
        EncodeType::Int128(_) => t is Int128,
        EncodeType::Uint8(_) => t is Uint8,
        EncodeType::Uint16(_) => t is Uint16,
        EncodeType::Uint32(_) => t is Uint32,
        EncodeType::Uint64(_) => t is Uint64,
        EncodeType::Uint128(_) => t is Uint128,
        EncodeType::Str(s) => t matches DecodeType::Str(n) && n as nat == encode_utf8(s@).len(),
        EncodeType::Bytes(b) => t matches DecodeType::Bytes(n) && n as nat == b@.len(),
    }
}

/// Whether a whole schedule matches a whole value sequence, descriptor by
/// descriptor.
pub open spec fn matches_schedule(ts: Seq<DecodeType>, vs: Seq<EncodeType>) -> bool {
    &&& ts.len() == vs.len()
    &&& forall|i: int| 0 <= i < vs.len() ==> tag_matches(#[trigger] ts[i], vs[i])
}

/// Whether a decoded field is the decoded-value equivalent of an encoded
/// value: the same tag, the same integer, the same characters, the same
/// bytes.
pub open spec fn decoded_matches_value(d: DecodedData, v: EncodeType) -> bool {
    match v {
        EncodeType::Int8(x) => d matches DecodedData::Int8(y) && y == x,
        EncodeType::Int16(x) => d matches DecodedData::Int16(y) && y == x,
        EncodeType::Int32(x) => d matches DecodedData::Int32(y) && y == x,
        EncodeType::Int64(x) => d matches DecodedData::Int64(y) && y == x,
        EncodeType::Int128(x) => d matches DecodedData::Int128(y) && y == x,
        EncodeType::Uint8(x) => d matches DecodedData::Uint8(y) && y == x,
        EncodeType::Uint16(x) => d matches DecodedData::Uint16(y) && y == x,
        EncodeType::Uint32(x) => d matches DecodedData::Uint32(y) && y == x,
        EncodeType::Uint64(x) => d matches DecodedData::Uint64(y) && y == x,
        EncodeType::Uint128(x) => d matches DecodedData::Uint128(y) && y == x,
        EncodeType::Str(s) => d matches DecodedData::Str(s2) && s2@ == s@,
        EncodeType::Bytes(b) => d matches DecodedData::Bytes(b2) && b2@ == b@,
    }
}

/// A matching descriptor consumes exactly the width of its value.
pub proof fn lemma_tag_width(t: DecodeType, v: EncodeType)
    requires
        tag_matches(t, v),
    ensures
        dwidth(t) == width_of(v),
{
}

/// The cursor in front of field `i + 1` of a schedule is the first field's
/// width plus the cursor in front of field `i` of the rest.
pub proof fn lemma_doffset_drop_first(ts: Seq<DecodeType>, i: int)
    requires
        ts.len() > 0,
        0 <= i < ts.len(),
    ensures
        doffset(ts, i + 1) == dwidth(ts[0]) + doffset(ts.drop_first(), i),
    decreases i,
{
    if i == 0 {
        assert(doffset(ts, 0) == 0);
        assert(doffset(ts.drop_first(), 0) == 0);
        assert(doffset(ts, 1) == doffset(ts, 0) + dwidth(ts[0]));
    } else {
        lemma_doffset_drop_first(ts, i - 1);
        assert(ts.drop_first()[i - 1] == ts[i]);
        assert(doffset(ts, i + 1) == doffset(ts, i) + dwidth(ts[i]));
        assert(doffset(ts.drop_first(), i) == doffset(ts.drop_first(), i - 1) + dwidth(
            ts.drop_first()[i - 1],
        ));
    }
}

/// The cursor never moves backwards.
pub proof fn lemma_doffset_monotone(ts: Seq<DecodeType>, i: int, j: int)
    requires
        0 <= i <= j,
    ensures
        doffset(ts, i) <= doffset(ts, j),
    decreases j - i,
{
    if i < j {
        lemma_doffset_monotone(ts, i, j - 1);
    }
}

/// Dropping the first descriptor and the first value keeps a schedule
/// matching.
pub proof fn lemma_matches_schedule_drop_first(ts: Seq<DecodeType>, vs: Seq<EncodeType>)
    requires
        matches_schedule(ts, vs),
        vs.len() > 0,
    ensures
        matches_schedule(ts.drop_first(), vs.drop_first()),
{
    assert forall|i: int| 0 <= i < vs.drop_first().len() implies tag_matches(
        #[trigger] ts.drop_first()[i],
        vs.drop_first()[i],
    ) by {
        assert(ts.drop_first()[i] == ts[i + 1]);
        assert(vs.drop_first()[i] == vs[i + 1]);
    }
}

/// A matching schedule consumes exactly the encoder's total width.
pub proof fn lemma_schedule_width(ts: Seq<DecodeType>, vs: Seq<EncodeType>)
    requires
        matches_schedule(ts, vs),
    ensures
        schedule_width(ts) == total_width(vs),
    decreases vs.len(),
{
    if vs.len() > 0 {
        lemma_matches_schedule_drop_first(ts, vs);
        lemma_schedule_width(ts.drop_first(), vs.drop_first());
        lemma_doffset_drop_first(ts, ts.len() - 1);
        lemma_tag_width(ts[0], vs[0]);
    }
}

/// Under a matching schedule, field `i` of the packed buffer holds exactly
/// the bytes that encoding value `i` produced.
pub proof fn lemma_field_slice_of_packed(
    ts: Seq<DecodeType>,
    vs: Seq<EncodeType>,
    little: bool,
    i: int,
)
    requires
        matches_schedule(ts, vs),
        0 <= i < vs.len(),
    ensures
        field_slice(ts, packed_bytes(vs, little), i) == field_bytes(vs[i], little),
    decreases i,
{
    let buf = packed_bytes(vs, little);
    let head = field_bytes(vs[0], little);
    let rest = packed_bytes(vs.drop_first(), little);
    lemma_field_bytes_len(vs[0], little);
    lemma_tag_width(ts[0], vs[0]);
    assert(buf == head + rest);
    if i == 0 {
        lemma_field_bytes_len(vs[0], little);
        assert(field_slice(ts, buf, 0) =~= head);
    } else {
        lemma_matches_schedule_drop_first(ts, vs);
        lemma_field_slice_of_packed(ts.drop_first(), vs.drop_first(), little, i - 1);
        lemma_doffset_drop_first(ts, i - 1);
        lemma_doffset_drop_first(ts, i);
        assert(ts.drop_first()[i - 1] == ts[i]);
        assert(vs.drop_first()[i - 1] == vs[i]);
        let off = doffset(ts.drop_first(), i - 1);
        let w = dwidth(ts[i]);
        assert(doffset(ts, i) == head.len() + off);
        assert(doffset(ts.drop_first(), i) == off + w);
        lemma_doffset_monotone(ts.drop_first(), i, ts.drop_first().len() as int);
        lemma_schedule_width(ts.drop_first(), vs.drop_first());
        lemma_packed_bytes_len(vs.drop_first(), little);
        assert(off + w <= rest.len());
        assert(field_slice(ts, buf, i) =~= rest.subrange(off as int, (off + w) as int));
        assert(field_slice(ts.drop_first(), rest, i - 1) == rest.subrange(
            off as int,
            (off + w) as int,
        ));
    }
}

/// Success is owed: decoding the encoder's output under a matching schedule
/// hits no error from any field on.
pub proof fn lemma_no_err_from(ts: Seq<DecodeType>, vs: Seq<EncodeType>, little: bool, i: int)
    requires
        matches_schedule(ts, vs),
        0 <= i <= ts.len(),
    ensures
        first_err_from(ts, packed_bytes(vs, little), i) is None,
    decreases ts.len() - i,
{
    let buf = packed_bytes(vs, little);
    if i < ts.len() {
        lemma_packed_bytes_len(vs, little);
        lemma_schedule_width(ts, vs);
        lemma_doffset_monotone(ts, i + 1, ts.len() as int);
        assert(doffset(ts, i + 1) == doffset(ts, i) + dwidth(ts[i]));
        assert(field_fits(ts, buf, i));
        lemma_field_slice_of_packed(ts, vs, little, i);
        if ts[i] matches DecodeType::Str(_) {
            assert(vs[i] is Str);
            encode_utf8_valid_utf8(vs[i]->Str_0@);
            assert(!str_invalid(ts, buf, i));
        }
        lemma_no_err_from(ts, vs, little, i + 1);
    }
}

/// Success is owed: decoding the encoder's output under a matching schedule
/// and the same byte order reports no error.
pub proof fn lemma_encoded_decodes(ts: Seq<DecodeType>, vs: Seq<EncodeType>, little: bool)
    requires
        matches_schedule(ts, vs),
    ensures
        decode_err(ts, packed_bytes(vs, little)) is None,
{
    lemma_no_err_from(ts, vs, little, 0);
}

/// Round trip: any decoded sequence that satisfies the decoder's contract
/// over the encoder's output, under a matching schedule and the same byte
/// order, is the original value sequence, field for field.
pub proof fn lemma_round_trip(
    ts: Seq<DecodeType>,
    vs: Seq<EncodeType>,
    little: bool,
    ds: Seq<DecodedData>,
)
    requires
        matches_schedule(ts, vs),
        decoded_ok(ts, packed_bytes(vs, little), little, ds),
    ensures
        ds.len() == vs.len(),
        forall|i: int| 0 <= i < vs.len() ==> decoded_matches_value(#[trigger] ds[i], vs[i]),
{
    assert forall|i: int| 0 <= i < vs.len() implies decoded_matches_value(
        #[trigger] ds[i],
        vs[i],
    ) by {
        lemma_field_slice_of_packed(ts, vs, little, i);
        let bytes = field_bytes(vs[i], little);
        assert(field_matches(ds[i], ts[i], bytes, little));
        lemma_pow256_values();
        match vs[i] {
            EncodeType::Int8(x) => {
                lemma_signed_round_trip(x as int, 1);
                lemma_int_round_trip(unsigned_repr(x as int, 1), 1, little);
            },
            EncodeType::Int16(x) => {
                lemma_signed_round_trip(x as int, 2);
                lemma_int_round_trip(unsigned_repr(x as int, 2), 2, little);
            },
            EncodeType::Int32(x) => {
                lemma_signed_round_trip(x as int, 4);
                lemma_int_round_trip(unsigned_repr(x as int, 4), 4, little);
            },
            EncodeType::Int64(x) => {
                lemma_signed_round_trip(x as int, 8);
                lemma_int_round_trip(unsigned_repr(x as int, 8), 8, little);
            },
            EncodeType::Int128(x) => {
                lemma_signed_round_trip(x as int, 16);
                lemma_int_round_trip(unsigned_repr(x as int, 16), 16, little);
            },
            EncodeType::Uint8(x) => {
                lemma_int_round_trip(x as nat, 1, little);
            },
            EncodeType::Uint16(x) => {
                lemma_int_round_trip(x as nat, 2, little);
            },
            EncodeType::Uint32(x) => {
                lemma_int_round_trip(x as nat, 4, little);
            },
            EncodeType::Uint64(x) => {
                lemma_int_round_trip(x as nat, 8, little);
            },
            EncodeType::Uint128(x) => {
                lemma_int_round_trip(x as nat, 16, little);
            },
            EncodeType::Str(s) => {
                encode_utf8_decode_utf8(s@);
            },
            EncodeType::Bytes(_) => {},
        }
    }
}

/// A buffer shorter than the schedule requires never decodes: some error is
/// reported, whatever the buffer holds.
pub proof fn lemma_short_buffer_from(ts: Seq<DecodeType>, buf: Seq<u8>, i: int)
    requires
        buf.len() < schedule_width(ts),
        0 <= i <= ts.len(),
        doffset(ts, i) <= buf.len(),
    ensures
        first_err_from(ts, buf, i) is Some,
    decreases ts.len() - i,
{
    if i == ts.len() {
        assert(doffset(ts, i) == schedule_width(ts));
    } else {
        if field_fits(ts, buf, i) && !str_invalid(ts, buf, i) {
            assert(doffset(ts, i + 1) == doffset(ts, i) + dwidth(ts[i]));
            lemma_short_buffer_from(ts, buf, i + 1);
        }
    }
}

/// A buffer shorter than the schedule requires never decodes.
pub proof fn lemma_short_buffer_fails(ts: Seq<DecodeType>, buf: Seq<u8>)
    requires
        buf.len() < schedule_width(ts),
    ensures
        decode_err(ts, buf) is Some,
{
    lemma_short_buffer_from(ts, buf, 0);
}

/// Truncation: decoding any strict prefix of the encoder's output under a
/// matching schedule fails with the bounds error, never a wrong value.
pub proof fn lemma_truncated_from(
    ts: Seq<DecodeType>,
    vs: Seq<EncodeType>,
    little: bool,
    len: int,
    i: int,
)
    requires
        matches_schedule(ts, vs),
        0 <= len < total_width(vs),
        0 <= i <= ts.len(),
        doffset(ts, i) <= len,
    ensures
        first_err_from(ts, packed_bytes(vs, little).take(len), i) == Some(
            DecodeError::IndexOutOfBounds,
        ),
    decreases ts.len() - i,
{
    let full = packed_bytes(vs, little);
    let buf = full.take(len);
    lemma_packed_bytes_len(vs, little);
    lemma_schedule_width(ts, vs);
    if i == ts.len() {
        assert(doffset(ts, i) == schedule_width(ts));
        assert(false);
    } else {
        assert(doffset(ts, i + 1) == doffset(ts, i) + dwidth(ts[i]));
        if doffset(ts, i) + dwidth(ts[i]) > len {
            assert(!field_fits(ts, buf, i));
        } else {
            assert(field_fits(ts, buf, i));
            lemma_field_slice_of_packed(ts, vs, little, i);
            assert(field_slice(ts, buf, i) =~= field_slice(ts, full, i));
            if ts[i] matches DecodeType::Str(_) {
                assert(vs[i] is Str);
                encode_utf8_valid_utf8(vs[i]->Str_0@);
                assert(!str_invalid(ts, buf, i));
            }
            lemma_truncated_from(ts, vs, little, len, i + 1);
        }
    }
}

/// Truncation: decoding the encoder's output cut short by at least one byte,
/// under a matching schedule, yields the bounds error.
pub proof fn lemma_truncated_encoding(
    ts: Seq<DecodeType>,
    vs: Seq<EncodeType>,
    little: bool,
    len: int,
)
    requires
        matches_schedule(ts, vs),
        0 <= len < total_width(vs),
    ensures
        decode_err(ts, packed_bytes(vs, little).take(len)) == Some(DecodeError::IndexOutOfBounds),
{
    lemma_truncated_from(ts, vs, little, len, 0);
}

/// Walking over clean fields does not change the first error: the decoder's
/// verdict from field `k` equals its verdict from field `i`, when every
/// field before `i` fits and holds valid data.
pub proof fn lemma_err_skip_clean(ts: Seq<DecodeType>, buf: Seq<u8>, k: int, i: int)
    requires
        0 <= k <= i <= ts.len(),
        forall|j: int|
            k <= j < i ==> #[trigger] field_fits(ts, buf, j) && !str_invalid(ts, buf, j),
    ensures
        first_err_from(ts, buf, k) == first_err_from(ts, buf, i),
    decreases i - k,
{
    if k < i {
        assert(field_fits(ts, buf, k) && !str_invalid(ts, buf, k));
        lemma_err_skip_clean(ts, buf, k + 1, i);
    }
}

/// Invalid UTF-8: when every field before `i` decodes cleanly, field `i`
/// fits, and field `i` is a string field over bytes that are not UTF-8, the
/// decoder reports invalid data at exactly position `i`.
pub proof fn lemma_invalid_utf8_err(ts: Seq<DecodeType>, buf: Seq<u8>, i: int)
    requires
        0 <= i < ts.len(),
        forall|j: int|
            0 <= j < i ==> #[trigger] field_fits(ts, buf, j) && !str_invalid(ts, buf, j),
        field_fits(ts, buf, i),
        str_invalid(ts, buf, i),
    ensures
        decode_err(ts, buf) == Some(DecodeError::InvalidData(i as usize)),
{
    lemma_err_skip_clean(ts, buf, 0, i);
}

} // verus!
