//! Laws that hold across the library's operations, each proved from the
//! specifications in `model`.

use vstd::prelude::*;

verus! {

use vstd::arithmetic::div_mod::lemma_breakdown;
use vstd::arithmetic::power2::{lemma2_to64, lemma_pow2_adds, pow2};
use crate::model::{
    and_bytes, bit_int, combine_len, lemma_u8_ops, not_bytes, or_bytes, range_value, seq_bit,
    u64_bit, xor_bytes,
};

/// Round-trip: a buffer whose bits in `[start, stop]` spell out `value`, most
/// significant bit first, holds in that range exactly `value` reduced modulo
/// two to the range's width. Since `insert` establishes the bit pattern below
/// and `retrieve` returns `range_value`, retrieving an inserted range yields
/// the inserted value masked to the range width.
pub proof fn lemma_round_trip(s: Seq<u8>, value: u64, start: int, stop: int)
    requires
        start <= stop,
        stop - start < 64,
        forall|j: int| start <= j <= stop ==> #[trigger] seq_bit(s, j) == u64_bit(value, stop - j),
    ensures
        range_value(s, start, stop) == (value as int) % (pow2((stop - start + 1) as nat) as int),
    decreases stop - start,
{
    lemma2_to64();
    assert((value >> 0u64) == value) by (bit_vector);
    assert(((value >> 0u64) & 1) == value % 2) by (bit_vector);
    if start == stop {
        assert(range_value(s, start, stop - 1) == 0);
        assert(seq_bit(s, stop) == u64_bit(value, 0));
        assert(range_value(s, start, stop) == bit_int(u64_bit(value, 0)));
        assert(bit_int(u64_bit(value, 0)) == value % 2);
    } else {
        let v1 = value >> 1u64;
        assert forall|j: int| start <= j <= stop - 1 implies #[trigger] seq_bit(s, j) == u64_bit(
            v1,
            stop - 1 - j,
        ) by {
            let k = (stop - 1 - j) as u64;
            assert(((value >> ((k + 1) as u64)) & 1) == (((value >> 1u64) >> k) & 1))
                by (bit_vector)
                requires
                    k <= 62,
            ;
            assert(seq_bit(s, j) == u64_bit(value, stop - j));
        }
        lemma_round_trip(s, v1, start, stop - 1);
        let m = pow2((stop - start) as nat) as int;
        assert(v1 as int == value as int / 2) by {
            vstd::bits::lemma_u64_shr_is_div(value, 1);
        }
        assert(range_value(s, start, stop) == 2 * range_value(s, start, stop - 1) + bit_int(
            seq_bit(s, stop),
        ));
        assert(bit_int(seq_bit(s, stop)) == value % 2);
        vstd::arithmetic::power2::lemma_pow2_pos((stop - start) as nat);
        lemma_breakdown(value as int, 2, m);
        lemma_pow2_adds(1, (stop - start) as nat);
        assert(pow2((stop - start + 1) as nat) == 2 * m);
    }
}

/// AND of two buffers is commutative: anchoring both operands at their last
/// byte treats them symmetrically, whatever their lengths.
pub proof fn lemma_and_commutative(a: Seq<u8>, b: Seq<u8>)
    ensures
        and_bytes(a, b) == and_bytes(b, a),
{
    assert forall|k: int| 0 <= k < combine_len(a, b) implies and_bytes(a, b)[k] == and_bytes(
        b,
        a,
    )[k] by {
        let t = combine_len(a, b) - 1 - k;
        if t < a.len() && t < b.len() {
            lemma_u8_ops(a[a.len() - 1 - t], b[b.len() - 1 - t]);
        }
    }
    assert(and_bytes(a, b) =~= and_bytes(b, a));
}

/// OR of two buffers is commutative: anchoring both operands at their last
/// byte treats them symmetrically, whatever their lengths.
pub proof fn lemma_or_commutative(a: Seq<u8>, b: Seq<u8>)
    ensures
        or_bytes(a, b) == or_bytes(b, a),
{
    assert forall|k: int| 0 <= k < combine_len(a, b) implies or_bytes(a, b)[k] == or_bytes(
        b,
        a,
    )[k] by {
        let t = combine_len(a, b) - 1 - k;
        if t < a.len() && t < b.len() {
            lemma_u8_ops(a[a.len() - 1 - t], b[b.len() - 1 - t]);
        }
    }
    assert(or_bytes(a, b) =~= or_bytes(b, a));
}

/// XOR of two buffers is commutative: anchoring both operands at their last
/// byte treats them symmetrically, whatever their lengths.
pub proof fn lemma_xor_commutative(a: Seq<u8>, b: Seq<u8>)
    ensures
        xor_bytes(a, b) == xor_bytes(b, a),
{
    assert forall|k: int| 0 <= k < combine_len(a, b) implies xor_bytes(a, b)[k] == xor_bytes(
        b,
        a,
    )[k] by {
        let t = combine_len(a, b) - 1 - k;
        if t < a.len() && t < b.len() {
            lemma_u8_ops(a[a.len() - 1 - t], b[b.len() - 1 - t]);
        }
    }
    assert(xor_bytes(a, b) =~= xor_bytes(b, a));
}

/// Double negation: complementing a buffer twice restores every byte.
pub proof fn lemma_not_involutive(a: Seq<u8>)
    ensures
        not_bytes(not_bytes(a)) == a,
{
    assert forall|k: int| 0 <= k < a.len() implies not_bytes(not_bytes(a))[k] == a[k] by {
        lemma_u8_ops(a[k], a[k]);
    }
    assert(not_bytes(not_bytes(a)) =~= a);
}

} // verus!
