//! Primitive fixed-width integer read/write helpers.
//!
//! A multi-byte integer is laid out as a run of base-256 digits, either with
//! the least significant byte first (little-endian) or last (big-endian).
//! Signed integers use their two's-complement representation. The spec
//! functions here are the mathematical model of that layout; the exec
//! functions write into and read from byte buffers and are proved against it.

use vstd::arithmetic::div_mod::{lemma_fundamental_div_mod, lemma_multiply_divide_lt};
use vstd::prelude::*;

verus! {

/// 256 to the power `n`: the number of distinct values that `n` bytes can hold.
pub open spec fn pow256(n: nat) -> nat
    decreases n,
{
    if n == 0 {
        1
    } else {
        256 * pow256((n - 1) as nat)
    }
}

/// The concrete values of `pow256` at every byte width used by the codec.
pub proof fn lemma_pow256_values()
    ensures
        pow256(0) == 1,
        pow256(1) == 0x100,
        pow256(2) == 0x1_0000,
        pow256(4) == 0x1_0000_0000,
        pow256(8) == 0x1_0000_0000_0000_0000,
        pow256(15) == 0x100_0000_0000_0000_0000_0000_0000_0000nat,
        pow256(16) == 0x1_0000_0000_0000_0000_0000_0000_0000_0000,
{
    assert(pow256(0) == 1);
    assert(pow256(1) == 0x100);
    assert(pow256(2) == 0x1_0000);
    assert(pow256(3) == 0x100_0000);
    assert(pow256(4) == 0x1_0000_0000);
    assert(pow256(5) == 0x100_0000_0000);
    assert(pow256(6) == 0x1_0000_0000_0000);
    assert(pow256(7) == 0x100_0000_0000_0000);
    assert(pow256(8) == 0x1_0000_0000_0000_0000);
    assert(pow256(9) == 0x100_0000_0000_0000_0000);
    assert(pow256(10) == 0x1_0000_0000_0000_0000_0000);
    assert(pow256(11) == 0x100_0000_0000_0000_0000_0000);
    assert(pow256(12) == 0x1_0000_0000_0000_0000_0000_0000);
    assert(pow256(13) == 0x100_0000_0000_0000_0000_0000_0000);
    assert(pow256(14) == 0x1_0000_0000_0000_0000_0000_0000_0000);
    assert(pow256(15) == 0x100_0000_0000_0000_0000_0000_0000_0000);
    assert(pow256(16) == 0x1_0000_0000_0000_0000_0000_0000_0000_0000);
}

pub proof fn lemma_pow256_increases(a: nat, b: nat)
    requires
        a <= b,
    ensures
        pow256(a) <= pow256(b),
    decreases b,
{
    if a < b {
        lemma_pow256_increases(a, (b - 1) as nat);
    }
}

/// The `n` little-endian base-256 digits of `v` (least significant byte first).
pub open spec fn le_bytes_of(v: nat, n: nat) -> Seq<u8>
    decreases n,
{
    if n == 0 {
        Seq::empty()
    } else {
        seq![(v % 256) as u8] + le_bytes_of(v / 256, (n - 1) as nat)
    }
}

/// The `n` big-endian base-256 digits of `v` (most significant byte first).
pub open spec fn be_bytes_of(v: nat, n: nat) -> Seq<u8>
    decreases n,
{
    if n == 0 {
        Seq::empty()
    } else {
        be_bytes_of(v / 256, (n - 1) as nat) + seq![(v % 256) as u8]
    }
}

/// The value of a byte sequence read as a little-endian base-256 number.
pub open spec fn le_value_of(s: Seq<u8>) -> nat
    decreases s.len(),
{
    if s.len() == 0 {
        0
    } else {
        (s[0] + 256 * le_value_of(s.drop_first())) as nat
    }
}

/// The value of a byte sequence read as a big-endian base-256 number.
pub open spec fn be_value_of(s: Seq<u8>) -> nat
    decreases s.len(),
{
    if s.len() == 0 {
        0
    } else {
        (256 * be_value_of(s.drop_last()) + s.last()) as nat
    }
}

/// The `n` bytes of `v` in the chosen byte order.
pub open spec fn int_bytes_of(v: nat, n: nat, little: bool) -> Seq<u8> {
    if little {
        le_bytes_of(v, n)
    } else {
        be_bytes_of(v, n)
    }
}

/// The value of a byte sequence in the chosen byte order.
pub open spec fn int_value_of(s: Seq<u8>, little: bool) -> nat {
    if little {
        le_value_of(s)
    } else {
        be_value_of(s)
    }
}

/// The two's-complement representation of `x` in `n` bytes, as a non-negative
/// number.
pub open spec fn unsigned_repr(x: int, n: nat) -> nat {
    if x >= 0 {
        x as nat
    } else {
        (x + pow256(n)) as nat
    }
}

/// The signed integer whose two's-complement representation in `n` bytes is `u`.
pub open spec fn signed_value(u: nat, n: nat) -> int {
    if 2 * u < pow256(n) {
        u as int
    } else {
        u - pow256(n)
    }
}

pub proof fn lemma_le_bytes_len(v: nat, n: nat)
    ensures
        le_bytes_of(v, n).len() == n,
    decreases n,
{
    if n > 0 {
        lemma_le_bytes_len(v / 256, (n - 1) as nat);
    }
}

pub proof fn lemma_be_bytes_len(v: nat, n: nat)
    ensures
        be_bytes_of(v, n).len() == n,
    decreases n,
{
    if n > 0 {
        lemma_be_bytes_len(v / 256, (n - 1) as nat);
    }
}

pub proof fn lemma_int_bytes_len(v: nat, n: nat, little: bool)
    ensures
        int_bytes_of(v, n, little).len() == n,
{
    lemma_le_bytes_len(v, n);
    lemma_be_bytes_len(v, n);
}

pub proof fn lemma_le_value_bound(s: Seq<u8>)
    ensures
        le_value_of(s) < pow256(s.len()),
    decreases s.len(),
{
    if s.len() > 0 {
        lemma_le_value_bound(s.drop_first());
    }
}

pub proof fn lemma_be_value_bound(s: Seq<u8>)
    ensures
        be_value_of(s) < pow256(s.len()),
    decreases s.len(),
{
    if s.len() > 0 {
        lemma_be_value_bound(s.drop_last());
    }
}

pub proof fn lemma_int_value_bound(s: Seq<u8>, little: bool)
    ensures
        int_value_of(s, little) < pow256(s.len()),
{
    lemma_le_value_bound(s);
    lemma_be_value_bound(s);
}

/// Reading back the little-endian bytes of `v` recovers `v`.
pub proof fn lemma_le_round_trip(v: nat, n: nat)
    requires
        v < pow256(n),
    ensures
        le_value_of(le_bytes_of(v, n)) == v,
    decreases n,
{
    if n > 0 {
        let b = (v % 256) as u8;
        let rest = le_bytes_of(v / 256, (n - 1) as nat);
        assert(v / 256 < pow256((n - 1) as nat)) by {
            lemma_multiply_divide_lt(v as int, pow256((n - 1) as nat) as int, 256);
        }
        lemma_le_round_trip(v / 256, (n - 1) as nat);
        assert((seq![b] + rest).drop_first() =~= rest);
        lemma_fundamental_div_mod(v as int, 256);
    }
}

/// Reading back the big-endian bytes of `v` recovers `v`.
pub proof fn lemma_be_round_trip(v: nat, n: nat)
    requires
        v < pow256(n),
    ensures
        be_value_of(be_bytes_of(v, n)) == v,
    decreases n,
{
    if n > 0 {
        let b = (v % 256) as u8;
        let rest = be_bytes_of(v / 256, (n - 1) as nat);
        assert(v / 256 < pow256((n - 1) as nat)) by {
            lemma_multiply_divide_lt(v as int, pow256((n - 1) as nat) as int, 256);
        }
        lemma_be_round_trip(v / 256, (n - 1) as nat);
        assert((rest + seq![b]).drop_last() =~= rest);
        lemma_fundamental_div_mod(v as int, 256);
    }
}

/// Reading back the bytes of `v` in either byte order recovers `v`.
pub proof fn lemma_int_round_trip(v: nat, n: nat, little: bool)
    requires
        v < pow256(n),
    ensures
        int_value_of(int_bytes_of(v, n, little), little) == v,
{
    lemma_le_round_trip(v, n);
    lemma_be_round_trip(v, n);
}

/// Mapping a signed integer to its two's-complement representation and back
/// recovers it, whenever it fits in `n` bytes.
pub proof fn lemma_signed_round_trip(x: int, n: nat)
    requires
        -pow256(n) <= 2 * x < pow256(n),
    ensures
        unsigned_repr(x, n) < pow256(n),
        signed_value(unsigned_repr(x, n), n) == x,
{
    lemma_pow256_increases(0, n);
}

/// Appends the `n` little-endian bytes of `v` to `buf`.
pub fn push_le_bytes(buf: &mut Vec<u8>, v: u128, n: usize)
    ensures
        final(buf)@ == old(buf)@ + le_bytes_of(v as nat, n as nat),
    decreases n,
{
    if n == 0 {
        assert(buf@ + le_bytes_of(v as nat, 0) =~= buf@);
    } else {
        let b: u8 = (v % 256) as u8;
        buf.push(b);
        push_le_bytes(buf, v / 256, n - 1);
        proof {
            assert(buf@ =~= old(buf)@ + le_bytes_of(v as nat, n as nat));
        }
    }
}

/// Appends the `n` big-endian bytes of `v` to `buf`.
pub fn push_be_bytes(buf: &mut Vec<u8>, v: u128, n: usize)
    ensures
        final(buf)@ == old(buf)@ + be_bytes_of(v as nat, n as nat),
    decreases n,
{
    if n == 0 {
        assert(buf@ + be_bytes_of(v as nat, 0) =~= buf@);
    } else {
        push_be_bytes(buf, v / 256, n - 1);
        let b: u8 = (v % 256) as u8;
        buf.push(b);
        proof {
            assert(buf@ =~= old(buf)@ + be_bytes_of(v as nat, n as nat));
        }
    }
}

/// Appends the `n` bytes of `v` in the chosen byte order to `buf`.
pub fn push_int_bytes(buf: &mut Vec<u8>, v: u128, n: usize, little: bool)
    ensures
        final(buf)@ == old(buf)@ + int_bytes_of(v as nat, n as nat, little),
{
    if little {
        push_le_bytes(buf, v, n);
    } else {
        push_be_bytes(buf, v, n);
    }
}

/// Reads `n` bytes starting at `start` as a little-endian number.
pub fn read_le_bytes(buf: &[u8], start: usize, n: usize) -> (r: u128)
    requires
        start + n <= buf.len(),
        n <= 16,
    ensures
        r as nat == le_value_of(buf@.subrange(start as int, start + n)),
    decreases n,
{
    if n == 0 {
        proof {
            assert(buf@.subrange(start as int, start as int).len() == 0);
        }
        0
    } else {
        let rest = read_le_bytes(buf, start + 1, n - 1);
        proof {
            lemma_le_value_bound(buf@.subrange(start + 1, start + n));
            lemma_pow256_increases((n - 1) as nat, 15);
            lemma_pow256_values();
        }
        let r = buf[start] as u128 + 256 * rest;
        proof {
            let s = buf@.subrange(start as int, start + n);
            assert(s.drop_first() =~= buf@.subrange(start + 1, start + n));
        }
        r
    }
}

/// Reads `n` bytes starting at `start` as a big-endian number.
pub fn read_be_bytes(buf: &[u8], start: usize, n: usize) -> (r: u128)
    requires
        start + n <= buf.len(),
        n <= 16,
    ensures
        r as nat == be_value_of(buf@.subrange(start as int, start + n)),
    decreases n,
{
    if n == 0 {
        proof {
            assert(buf@.subrange(start as int, start as int).len() == 0);
        }
        0
    } else {
        let rest = read_be_bytes(buf, start, n - 1);
        proof {
            lemma_be_value_bound(buf@.subrange(start as int, start + n - 1));
            lemma_pow256_increases((n - 1) as nat, 15);
            lemma_pow256_values();
        }
        let r = 256 * rest + buf[start + n - 1] as u128;
        proof {
            let s = buf@.subrange(start as int, start + n);
            assert(s.drop_last() =~= buf@.subrange(start as int, start + n - 1));
        }
        r
    }
}

/// Reads `n` bytes starting at `start` in the chosen byte order.
pub fn read_int_bytes(buf: &[u8], start: usize, n: usize, little: bool) -> (r: u128)
    requires
        start + n <= buf.len(),
        n <= 16,
    ensures
        r as nat == int_value_of(buf@.subrange(start as int, start + n), little),
{
    if little {
        read_le_bytes(buf, start, n)
    } else {
        read_be_bytes(buf, start, n)
    }
}

/// Appends a whole byte slice to `buf`.
pub fn append_slice(buf: &mut Vec<u8>, s: &[u8])
    ensures
        final(buf)@ == old(buf)@ + s@,
{
    let mut i: usize = 0;
    while i < s.len()
        invariant
            i <= s@.len(),
            buf@ == old(buf)@ + s@.subrange(0, i as int),
        decreases s@.len() - i,
    {
        buf.push(s[i]);
        proof {
            assert(old(buf)@ + s@.subrange(0, i as int) + seq![s@[i as int]] =~= old(buf)@
                + s@.subrange(0, i + 1));
        }
        i = i + 1;
    }
    proof {
        assert(s@.subrange(0, s@.len() as int) =~= s@);
    }
}

/// Copies `n` bytes of `buf` starting at `start` into a fresh vector.
pub fn copy_range(buf: &[u8], start: usize, n: usize) -> (v: Vec<u8>)
    requires
        start + n <= buf.len(),
    ensures
        v@ == buf@.subrange(start as int, start + n),
{
    vstd::slice::slice_to_vec(vstd::slice::slice_subrange(buf, start, start + n))
}

/// The two's-complement byte of an `i8`.
pub fn i8_to_bits(v: i8) -> (u: u8)
    ensures
        u as nat == unsigned_repr(v as int, 1),
{
    proof {
        lemma_pow256_values();
    }
    if v >= 0 {
        v as u8
    } else {
        ((v as i16) + 0x100) as u8
    }
}

/// The `i8` with the given two's-complement byte.
pub fn bits_to_i8(u: u8) -> (v: i8)
    ensures
        v as int == signed_value(u as nat, 1),
{
    proof {
        lemma_pow256_values();
    }
    if u < 0x80 {
        u as i8
    } else {
        ((u as i16) - 0x100) as i8
    }
}

/// The two's-complement representation of an `i16`.
pub fn i16_to_bits(v: i16) -> (u: u16)
    ensures
        u as nat == unsigned_repr(v as int, 2),
{
    proof {
        lemma_pow256_values();
    }
    if v >= 0 {
        v as u16
    } else {
        ((v as i32) + 0x1_0000) as u16
    }
}

/// The `i16` with the given two's-complement representation.
pub fn bits_to_i16(u: u16) -> (v: i16)
    ensures
        v as int == signed_value(u as nat, 2),
{
    proof {
        lemma_pow256_values();
    }
    if u < 0x8000 {
        u as i16
    } else {
        ((u as i32) - 0x1_0000) as i16
    }
}

/// The two's-complement representation of an `i32`.
pub fn i32_to_bits(v: i32) -> (u: u32)
    ensures
        u as nat == unsigned_repr(v as int, 4),
{
    proof {
        lemma_pow256_values();
    }
    if v >= 0 {
        v as u32
    } else {
        ((v as i64) + 0x1_0000_0000) as u32
    }
}

/// The `i32` with the given two's-complement representation.
pub fn bits_to_i32(u: u32) -> (v: i32)
    ensures
        v as int == signed_value(u as nat, 4),
{
    proof {
        lemma_pow256_values();
    }
    if u < 0x8000_0000 {
        u as i32
    } else {
        ((u as i64) - 0x1_0000_0000) as i32
    }
}

/// The two's-complement representation of an `i64`.
pub fn i64_to_bits(v: i64) -> (u: u64)
    ensures
        u as nat == unsigned_repr(v as int, 8),
{
    proof {
        lemma_pow256_values();
    }
    if v >= 0 {
        v as u64
    } else {
        ((v as i128) + 0x1_0000_0000_0000_0000) as u64
    }
}

/// The `i64` with the given two's-complement representation.
pub fn bits_to_i64(u: u64) -> (v: i64)
    ensures
        v as int == signed_value(u as nat, 8),
{
    proof {
        lemma_pow256_values();
    }
    if u < 0x8000_0000_0000_0000 {
        u as i64
    } else {
        ((u as i128) - 0x1_0000_0000_0000_0000) as i64
    }
}

/// The two's-complement representation of an `i128`.
pub fn i128_to_bits(v: i128) -> (u: u128)
    ensures
        u as nat == unsigned_repr(v as int, 16),
{
    proof {
        lemma_pow256_values();
    }
    if v >= 0 {
        v as u128
    } else {
        let m: i128 = -(v + 1);
        u128::MAX - (m as u128)
    }
}

/// The `i128` with the given two's-complement representation.
pub fn bits_to_i128(u: u128) -> (v: i128)
    ensures
        v as int == signed_value(u as nat, 16),
{
    proof {
        lemma_pow256_values();
    }
    if u < 0x8000_0000_0000_0000_0000_0000_0000_0000 {
        u as i128
    } else {
        let m: u128 = u128::MAX - u;
        -(m as i128) - 1
    }
}

} // verus!
