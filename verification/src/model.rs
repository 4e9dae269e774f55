//! The mathematical model of a bit buffer: bit numbering, the value held by a
//! bit range, and byte-level descriptions of the bitwise combinators.
//!
//! A buffer is modelled as a `Seq<u8>`. Bit `i` of the buffer lives in byte
//! `i / 8`; within a byte, position 0 is the most significant bit. A bit range
//! `[start, stop]` is inclusive and holds its value most significant bit first.

use vstd::prelude::*;

verus! {

use vstd::arithmetic::div_mod::lemma_fundamental_div_mod_converse;
use vstd::arithmetic::power2::{lemma2_to64, lemma_pow2_adds, pow2};

/// Bit `pos` of a byte, where position 0 is the most significant bit.
pub open spec fn byte_bit(b: u8, pos: int) -> bool {
    (b >> ((7 - pos) as u8)) & 1 == 1
}

/// Bit `i` of a byte sequence: bit `i % 8` (MSB first) of byte `i / 8`.
pub open spec fn seq_bit(s: Seq<u8>, i: int) -> bool {
    byte_bit(s[i / 8], i % 8)
}

/// Bit `k` of a 64-bit value, counted from the least significant bit.
pub open spec fn u64_bit(v: u64, k: int) -> bool {
    (v >> (k as u64)) & 1 == 1
}

/// The numeric weight of a single bit.
pub open spec fn bit_int(b: bool) -> int {
    if b {
        1
    } else {
        0
    }
}

/// The unsigned value held by bits `start ..= stop` of `s`, read most
/// significant bit first. An empty range (`stop < start`) holds 0.
pub open spec fn range_value(s: Seq<u8>, start: int, stop: int) -> int
    decreases stop + 1 - start,
{
    if stop < start {
        0
    } else {
        2 * range_value(s, start, stop - 1) + bit_int(seq_bit(s, stop))
    }
}

/// The unsigned value held by bit positions `p ..= q` of a single byte,
/// read most significant bit first.
pub open spec fn byte_range_value(b: u8, p: int, q: int) -> int
    decreases q + 1 - p,
{
    if q < p {
        0
    } else {
        2 * byte_range_value(b, p, q - 1) + bit_int(byte_bit(b, q))
    }
}

/// For `8 * a <= j < 8 * a + 8`, bit `j` lives in byte `a` at position `j - 8 * a`.
pub proof fn lemma_div8(j: int, a: int)
    requires
        8 * a <= j < 8 * a + 8,
    ensures
        j / 8 == a,
        j % 8 == j - 8 * a,
{
    lemma_fundamental_div_mod_converse(j, 8, a, j - 8 * a);
}

/// A bit of a byte, extracted by shift and mask, is 0 or 1.
proof fn lemma_u8_bit01(b: u8, sh: u8)
    by (bit_vector)
    ensures
        ((b >> sh) & 1) == 0 || ((b >> sh) & 1) == 1,
{
}

/// A zero byte has no bit set.
proof fn lemma_zero_byte_bit(p: u64)
    by (bit_vector)
    requires
        p < 8,
    ensures
        ((0u8 >> ((7 - p) as u8)) & 1) != 1,
{
}

/// Every bit of the zero byte is clear.
pub proof fn lemma_zero_byte(pos: int)
    requires
        0 <= pos < 8,
    ensures
        !byte_bit(0u8, pos),
{
    lemma_zero_byte_bit(pos as u64);
}

/// Base case of the shift-and-mask extraction: one bit.
proof fn lemma_extract_one(b: u8, p: u64)
    by (bit_vector)
    requires
        p < 8,
    ensures
        ((b >> ((7 - p) as u8)) & (0xffu8 >> ((7 - p + p) as u8))) == ((b >> ((7 - p) as u8))
            & 1),
{
}

/// Inductive step of the shift-and-mask extraction: widening the range by its
/// last bit doubles the extracted value and adds that bit.
proof fn lemma_extract_step(b: u8, p: u64, q: u64)
    by (bit_vector)
    requires
        p < q <= 7,
    ensures
        ((b >> ((7 - q) as u8)) & (0xffu8 >> ((7 - q + p) as u8))) == 2 * ((b >> ((8 - q) as u8))
            & (0xffu8 >> ((8 - q + p) as u8))) + ((b >> ((7 - q) as u8)) & 1),
{
}

/// The value of bits `p ..= q` of a byte equals the byte shifted right to drop
/// the bits after `q`, masked to the low `q - p + 1` bits.
pub proof fn lemma_byte_extract(b: u8, p: int, q: int)
    requires
        0 <= p <= q <= 7,
    ensures
        byte_range_value(b, p, q) == ((b >> ((7 - q) as u8)) & (0xffu8 >> ((7 - q + p) as u8))),
    decreases q - p,
{
    if p == q {
        lemma_extract_one(b, p as u64);
        lemma_u8_bit01(b, (7 - p) as u8);
        assert(byte_range_value(b, p, p - 1) == 0);
        assert(byte_range_value(b, p, q) == bit_int(byte_bit(b, q)));
    } else {
        lemma_byte_extract(b, p, q - 1);
        lemma_extract_step(b, p as u64, q as u64);
        lemma_u8_bit01(b, (7 - q) as u8);
        assert(byte_range_value(b, p, q) == 2 * byte_range_value(b, p, q - 1) + bit_int(
            byte_bit(b, q),
        ));
    }
}

/// The value of a bit range of a byte is below two to its width.
pub proof fn lemma_byte_range_value_bound(b: u8, p: int, q: int)
    requires
        p <= q,
    ensures
        0 <= byte_range_value(b, p, q) < pow2((q + 1 - p) as nat),
    decreases q - p,
{
    lemma2_to64();
    if p == q {
        assert(byte_range_value(b, p, p - 1) == 0);
    } else {
        lemma_byte_range_value_bound(b, p, q - 1);
        lemma_pow2_adds((q - p) as nat, 1);
        assert(pow2((q + 1 - p) as nat) == 2 * pow2((q - p) as nat));
    }
}

/// A bit range that stays within one byte holds that byte's sub-range value.
pub proof fn lemma_range_value_in_byte(s: Seq<u8>, a: int, b: int)
    requires
        0 <= a <= b,
        a / 8 == b / 8,
    ensures
        range_value(s, a, b) == byte_range_value(s[a / 8], a % 8, b % 8),
    decreases b - a,
{
    if a == b {
        assert(range_value(s, a, a - 1) == 0);
        assert(byte_range_value(s[a / 8], a % 8, a % 8 - 1) == 0);
    } else {
        vstd::arithmetic::div_mod::lemma_fundamental_div_mod(b, 8);
        vstd::arithmetic::div_mod::lemma_fundamental_div_mod(a, 8);
        assert(b % 8 == b - 8 * (b / 8));
        assert(a % 8 <= b % 8 - 1) by {
            lemma_div8(b - 1, b / 8);
        }
        assert((b - 1) / 8 == b / 8 && (b - 1) % 8 == b % 8 - 1) by {
            lemma_div8(b - 1, b / 8);
        }
        lemma_range_value_in_byte(s, a, b - 1);
        assert(range_value(s, a, b) == 2 * range_value(s, a, b - 1) + bit_int(seq_bit(s, b)));
        assert(byte_range_value(s[a / 8], a % 8, b % 8) == 2 * byte_range_value(
            s[a / 8],
            a % 8,
            b % 8 - 1,
        ) + bit_int(byte_bit(s[a / 8], b % 8)));
    }
}

/// The value of a range is below two to its width.
pub proof fn lemma_range_value_bound(s: Seq<u8>, start: int, stop: int)
    ensures
        0 <= range_value(s, start, stop),
        stop >= start - 1 ==> range_value(s, start, stop) < pow2((stop + 1 - start) as nat),
    decreases stop + 1 - start,
{
    lemma2_to64();
    if stop < start {
    } else {
        lemma_range_value_bound(s, start, stop - 1);
        lemma_pow2_adds((stop - start) as nat, 1);
    }
}

/// Splitting a range after bit `mid`: the whole value is the first part
/// shifted up by the width of the second part, plus the second part.
pub proof fn lemma_range_value_split(s: Seq<u8>, start: int, mid: int, stop: int)
    requires
        start - 1 <= mid <= stop,
    ensures
        range_value(s, start, stop) == range_value(s, start, mid) * pow2((stop - mid) as nat)
            + range_value(s, mid + 1, stop),
    decreases stop - mid,
{
    lemma2_to64();
    if mid == stop {
        assert(range_value(s, mid + 1, stop) == 0);
        assert(pow2((stop - mid) as nat) == 1);
        assert(range_value(s, start, mid) * 1 == range_value(s, start, mid));
    } else {
        lemma_range_value_split(s, start, mid, stop - 1);
        lemma_pow2_adds((stop - 1 - mid) as nat, 1);
        let a = range_value(s, start, mid);
        let p = pow2((stop - 1 - mid) as nat) as int;
        let b2 = range_value(s, mid + 1, stop - 1);
        assert(pow2((stop - mid) as nat) == 2 * p);
        assert(range_value(s, start, stop) == 2 * (a * p + b2) + bit_int(seq_bit(s, stop)));
        assert(range_value(s, mid + 1, stop) == 2 * b2 + bit_int(seq_bit(s, stop)));
        assert(2 * (a * p) == a * (2 * p)) by {
            vstd::arithmetic::mul::lemma_mul_is_associative(2, a, p);
            vstd::arithmetic::mul::lemma_mul_is_associative(a, 2, p);
        }
        assert(a * pow2((stop - mid) as nat) == a * (2 * p));
    }
}

/// The two smallest values have the expected bits: 0 has none, 1 has only bit 0.
proof fn lemma_u64_bits_of_01(k: u64)
    by (bit_vector)
    ensures
        ((0u64 >> k) & 1) == 0,
        k >= 1 ==> ((1u64 >> k) & 1) == 0,
        ((1u64 >> 0u64) & 1) == 1,
{
}

/// Doubling a value and adding a bit shifts its bit numbering up by one.
proof fn lemma_u64_double_plus_bit(x: u64, y: u64, b: u64, k: u64)
    by (bit_vector)
    requires
        b <= 1,
        y == 2 * x + b,
    ensures
        ((y >> 0u64) & 1) == b,
        1 <= k < 64 ==> ((y >> k) & 1) == ((x >> ((k - 1) as u64)) & 1),
{
}

/// Bit `k` of the value held by `[start, stop]` is bit `stop - k` of the
/// buffer when `k` lies within the range's width, and clear beyond it.
pub proof fn lemma_range_value_bits(s: Seq<u8>, start: int, stop: int, k: int)
    requires
        start <= stop,
        stop - start < 64,
        0 <= k < 64,
    ensures
        u64_bit(range_value(s, start, stop) as u64, k) == (k <= stop - start && seq_bit(
            s,
            stop - k,
        )),
    decreases stop - start,
{
    lemma_range_value_bound(s, start, stop);
    lemma2_to64();
    vstd::arithmetic::power2::lemma2_to64_rest();
    if stop + 1 - start < 64 {
        vstd::arithmetic::power2::lemma_pow2_strictly_increases((stop + 1 - start) as nat, 64);
    }
    if start == stop {
        assert(range_value(s, start, stop - 1) == 0);
        let v = range_value(s, start, stop) as u64;
        assert(v == bit_int(seq_bit(s, stop)));
        lemma_u64_bits_of_01(k as u64);
        if seq_bit(s, stop) {
            lemma_u64_double_plus_bit(0u64, 1u64, 1u64, k as u64);
            assert(((1u64 >> 0u64) & 1) == 1);
        }
    } else {
        lemma_range_value_bound(s, start, stop - 1);
        vstd::arithmetic::power2::lemma_pow2_strictly_increases((stop - start) as nat, 64);
        let x = range_value(s, start, stop - 1) as u64;
        let y = range_value(s, start, stop) as u64;
        let b: u64 = if seq_bit(s, stop) {
            1u64
        } else {
            0u64
        };
        assert(y == 2 * x + b);
        lemma_u64_double_plus_bit(x, y, b, k as u64);
        if k == 0 {
        } else {
            lemma_range_value_bits(s, start, stop - 1, k - 1);
        }
    }
}

/// Writing the bits of `value` into a byte: positions outside `[p, q]` keep the
/// old byte's bits, positions inside take the matching bits of `value`.
proof fn lemma_insert_byte(value: u64, b: u8, p: u64, q: u64, sh: u64, r: u64)
    by (bit_vector)
    requires
        p <= q < 8,
        r < 8,
        sh + q - p <= 63,
    ensures
        ({
            let mask0 = 0xffu8 >> ((7 - q + p) as u8);
            let mask = mask0 << ((7 - q) as u8);
            let bval = (((value >> sh) as u8) & mask0) << ((7 - q) as u8);
            let nb = (b & !mask) | bval;
            &&& ((r < p || r > q) ==> ((nb >> ((7 - r) as u8)) & 1) == ((b >> ((7 - r) as u8))
                & 1))
            &&& (p <= r <= q ==> ((nb >> ((7 - r) as u8)) & 1) == ((value >> ((sh + q - r) as u64))
                & 1))
        }),
{
}

/// Masking a byte with a shifted mask and shifting the result back equals
/// shifting first and masking with the unshifted mask.
proof fn lemma_masked_extract_bv(b: u8, p: u64, q: u64)
    by (bit_vector)
    requires
        p <= q < 8,
    ensures
        ((b & ((0xffu8 >> ((7 - q + p) as u8)) << ((7 - q) as u8))) >> ((7 - q) as u8)) == ((b >> (
        (7 - q) as u8)) & (0xffu8 >> ((7 - q + p) as u8))),
{
}

/// Extracting bits `p ..= q` of a byte by mask-then-shift yields the value of
/// that bit range.
pub proof fn lemma_masked_extract(b: u8, p: int, q: int)
    requires
        0 <= p <= q <= 7,
    ensures
        ((b & ((0xffu8 >> ((7 - q + p) as u8)) << ((7 - q) as u8))) >> ((7 - q) as u8))
            == byte_range_value(b, p, q),
{
    lemma_masked_extract_bv(b, p as u64, q as u64);
    lemma_byte_extract(b, p, q);
}

/// A value shifted left by `w` bits, combined by `or` with a value below
/// `2^w`, is their exact sum.
pub proof fn lemma_shl_or_is_add(x: u64, y: u64, w: u64)
    by (bit_vector)
    requires
        w < 64,
        y < (1u64 << w),
    ensures
        ((x << w) | y) == (x << w) + y,
{
}

/// The byte produced by one step of the insert engine, named so that callers
/// and the bit-level description above speak of the same value.
pub open spec fn inserted_byte(value: u64, b: u8, p: int, q: int, sh: int) -> u8 {
    let mask0 = 0xffu8 >> ((7 - q + p) as u8);
    let mask = mask0 << ((7 - q) as u8);
    let bval = (((value >> (sh as u64)) as u8) & mask0) << ((7 - q) as u8);
    (b & !mask) | bval
}

/// What each bit of an `inserted_byte` holds.
pub proof fn lemma_inserted_byte_bits(value: u64, b: u8, p: int, q: int, sh: int, r: int)
    requires
        0 <= p <= q <= 7,
        0 <= r <= 7,
        0 <= sh,
        sh + q - p <= 63,
    ensures
        (r < p || r > q) ==> byte_bit(inserted_byte(value, b, p, q, sh), r) == byte_bit(b, r),
        p <= r <= q ==> byte_bit(inserted_byte(value, b, p, q, sh), r) == u64_bit(
            value,
            sh + q - r,
        ),
{
    lemma_insert_byte(value, b, p as u64, q as u64, sh as u64, r as u64);
}

/// Every bit of an all-zero buffer is clear.
pub proof fn lemma_zero_seq_bit(s: Seq<u8>, j: int)
    requires
        0 <= j < 8 * s.len(),
        forall|k: int| 0 <= k < s.len() ==> s[k] == 0u8,
    ensures
        !seq_bit(s, j),
{
    vstd::arithmetic::div_mod::lemma_fundamental_div_mod(j, 8);
    assert(0 <= j / 8 < s.len());
    lemma_zero_byte(j % 8);
}

/// Length of the result of combining two buffers: the longer of the two.
pub open spec fn combine_len(a: Seq<u8>, b: Seq<u8>) -> int {
    if a.len() < b.len() {
        b.len() as int
    } else {
        a.len() as int
    }
}

/// Bytes of `a AND b`. The operands are anchored at their last byte; result
/// bytes beyond the shorter operand's reach are zero.
pub open spec fn and_bytes(a: Seq<u8>, b: Seq<u8>) -> Seq<u8> {
    Seq::new(
        combine_len(a, b) as nat,
        |k: int|
            {
                let t = combine_len(a, b) - 1 - k;
                if t < a.len() && t < b.len() {
                    a[a.len() - 1 - t] & b[b.len() - 1 - t]
                } else {
                    0u8
                }
            },
    )
}

/// Bytes of `a OR b`. The operands are anchored at their last byte; result
/// bytes beyond the shorter operand's reach are copied from the longer one.
pub open spec fn or_bytes(a: Seq<u8>, b: Seq<u8>) -> Seq<u8> {
    Seq::new(
        combine_len(a, b) as nat,
        |k: int|
            {
                let t = combine_len(a, b) - 1 - k;
                if t < a.len() && t < b.len() {
                    a[a.len() - 1 - t] | b[b.len() - 1 - t]
                } else if t < a.len() {
                    a[a.len() - 1 - t]
                } else {
                    b[b.len() - 1 - t]
                }
            },
    )
}

/// Bytes of `a XOR b`. The operands are anchored at their last byte; result
/// bytes beyond the shorter operand's reach are copied from the longer one.
pub open spec fn xor_bytes(a: Seq<u8>, b: Seq<u8>) -> Seq<u8> {
    Seq::new(
        combine_len(a, b) as nat,
        |k: int|
            {
                let t = combine_len(a, b) - 1 - k;
                if t < a.len() && t < b.len() {
                    a[a.len() - 1 - t] ^ b[b.len() - 1 - t]
                } else if t < a.len() {
                    a[a.len() - 1 - t]
                } else {
                    b[b.len() - 1 - t]
                }
            },
    )
}

/// Bytes of `NOT a`: every byte complemented, same length.
pub open spec fn not_bytes(a: Seq<u8>) -> Seq<u8> {
    Seq::new(a.len(), |k: int| !a[k])
}

/// The bitwise byte operations are commutative, and complementing twice
/// restores a byte.
pub proof fn lemma_u8_ops(x: u8, y: u8)
    by (bit_vector)
    ensures
        x & y == y & x,
        x | y == y | x,
        x ^ y == y ^ x,
        !!x == x,
{
}

/// Two bytes that agree on all eight bit positions are equal.
proof fn lemma_u8_eq_by_bits(x: u8, y: u8)
    by (bit_vector)
    requires
        (((x >> 7u8) & 1) == 1) <==> (((y >> 7u8) & 1) == 1),
        (((x >> 6u8) & 1) == 1) <==> (((y >> 6u8) & 1) == 1),
        (((x >> 5u8) & 1) == 1) <==> (((y >> 5u8) & 1) == 1),
        (((x >> 4u8) & 1) == 1) <==> (((y >> 4u8) & 1) == 1),
        (((x >> 3u8) & 1) == 1) <==> (((y >> 3u8) & 1) == 1),
        (((x >> 2u8) & 1) == 1) <==> (((y >> 2u8) & 1) == 1),
        (((x >> 1u8) & 1) == 1) <==> (((y >> 1u8) & 1) == 1),
        (((x >> 0u8) & 1) == 1) <==> (((y >> 0u8) & 1) == 1),
    ensures
        x == y,
{
}

/// A byte is determined by its eight bits.
pub proof fn lemma_byte_bits_determine(x: u8, y: u8)
    requires
        forall|p: int| 0 <= p < 8 ==> byte_bit(x, p) == byte_bit(y, p),
    ensures
        x == y,
{
    assert(byte_bit(x, 0) == byte_bit(y, 0));
    assert(byte_bit(x, 1) == byte_bit(y, 1));
    assert(byte_bit(x, 2) == byte_bit(y, 2));
    assert(byte_bit(x, 3) == byte_bit(y, 3));
    assert(byte_bit(x, 4) == byte_bit(y, 4));
    assert(byte_bit(x, 5) == byte_bit(y, 5));
    assert(byte_bit(x, 6) == byte_bit(y, 6));
    assert(byte_bit(x, 7) == byte_bit(y, 7));
    lemma_u8_eq_by_bits(x, y);
}

/// Two buffers of the same length that agree on every bit are equal.
pub proof fn lemma_equal_bits_equal_bytes(s: Seq<u8>, t: Seq<u8>)
    requires
        s.len() == t.len(),
        forall|j: int| 0 <= j < 8 * s.len() ==> seq_bit(s, j) == seq_bit(t, j),
    ensures
        s == t,
{
    assert forall|bi: int| 0 <= bi < s.len() implies s[bi] == t[bi] by {
        assert forall|p: int| 0 <= p < 8 implies byte_bit(s[bi], p) == byte_bit(t[bi], p) by {
            let j = 8 * bi + p;
            lemma_div8(j, bi);
            assert(seq_bit(s, j) == byte_bit(s[bi], p));
            assert(seq_bit(t, j) == byte_bit(t[bi], p));
        }
        lemma_byte_bits_determine(s[bi], t[bi]);
    }
    assert(s =~= t);
}

} // verus!
