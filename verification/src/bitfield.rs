//! The `BitField` type: a growable byte buffer addressed at bit granularity.

use vstd::prelude::*;

verus! {

use vstd::arithmetic::div_mod::lemma_fundamental_div_mod;
use vstd::arithmetic::power2::{lemma2_to64, lemma_pow2_adds, lemma_pow2_pos, pow2};
use crate::model::{
    and_bytes, byte_range_value, inserted_byte, lemma_byte_extract, lemma_byte_range_value_bound,
    lemma_div8, lemma_equal_bits_equal_bytes, lemma_inserted_byte_bits, lemma_masked_extract,
    lemma_range_value_bits, lemma_range_value_bound, lemma_range_value_in_byte,
    lemma_range_value_split, lemma_shl_or_is_add, lemma_zero_seq_bit, not_bytes, or_bytes,
    range_value, seq_bit, u64_bit, xor_bytes,
};
use crate::laws::lemma_round_trip;
use vstd::string::StringExecFns;

/// The ways a bit-range operation can fail.
#[derive(Clone, Copy, Debug, PartialEq, Eq, Structural)]
pub enum BitFieldError {
    /// Reserved for engine invariant violations; never produced, since every
    /// internal byte access is proved in bounds after validation.
    InternalError,
    /// The byte holding the range's last bit lies beyond the buffer.
    InvalidIndex,
    /// The range runs backwards: `start_bit > stop_bit`.
    NegativeRange,
    /// The range is wider than the integer type being packed or unpacked.
    ExceededDataRange,
}

/// A growable sequence of bytes addressed at bit granularity: bit `b` lives in
/// byte `b / 8`, and position `b % 8` counts from the most significant bit.
pub struct BitField {
    bytes: Vec<u8>,
}

/// The last bit that the retrieve loop has taken in after `i` whole bytes:
/// the end of byte `start_byte + i - 1`, clipped to the range's stop bit.
spec fn processed_stop(start_byte: int, stop: int, i: int) -> int {
    if 8 * (start_byte + i) - 1 < stop {
        8 * (start_byte + i) - 1
    } else {
        stop
    }
}

impl View for BitField {
    type V = Seq<u8>;

    closed spec fn view(&self) -> Seq<u8> {
        self.bytes@
    }
}

impl BitField {
    /// An empty buffer.
    pub fn new() -> (r: BitField)
        ensures
            r@ == Seq::<u8>::empty(),
    {
        BitField { bytes: Vec::new() }
    }

    /// A buffer of `capacity` zero bytes.
    pub fn with_capacity(capacity: usize) -> (r: BitField)
        ensures
            r@.len() == capacity,
            forall|i: int| 0 <= i < capacity ==> r@[i] == 0u8,
    {
        BitField { bytes: vec![0u8; capacity] }
    }

    /// The number of bytes in the buffer.
    pub fn len(&self) -> (r: usize)
        ensures
            r == self@.len(),
    {
        self.bytes.len()
    }

    /// A buffer holding a copy of the given bytes.
    pub fn from_slice(values: &[u8]) -> (r: BitField)
        ensures
            r@ == values@,
    {
        let mut bytes: Vec<u8> = Vec::new();
        let mut i: usize = 0;
        while i < values.len()
            invariant
                i <= values@.len(),
                bytes@ == values@.subrange(0, i as int),
            decreases values@.len() - i,
        {
            bytes.push(values[i]);
            proof {
                assert(bytes@ =~= values@.subrange(0, i + 1));
            }
            i = i + 1;
        }
        proof {
            assert(bytes@ =~= values@);
        }
        BitField { bytes }
    }

    /// Empties the buffer.
    pub fn clear(&mut self)
        ensures
            final(self)@ == Seq::<u8>::empty(),
    {
        self.bytes.clear()
    }

    /// Whether the buffer holds no bytes.
    pub fn is_empty(&self) -> (r: bool)
        ensures
            r == (self@.len() == 0),
    {
        self.bytes.len() == 0
    }

    /// Appends `size` zero bytes to the buffer.
    pub fn grow(&mut self, size: usize)
        requires
            old(self)@.len() + size <= usize::MAX,
        ensures
            final(self)@.len() == old(self)@.len() + size,
            forall|i: int| 0 <= i < old(self)@.len() ==> final(self)@[i] == old(self)@[i],
            forall|i: int|
                old(self)@.len() <= i < old(self)@.len() + size ==> final(self)@[i] == 0u8,
    {
        let mut n: usize = 0;
        while n < size
            invariant
                n <= size,
                old(self)@.len() + size <= usize::MAX,
                self.bytes@.len() == old(self)@.len() + n,
                forall|i: int| 0 <= i < old(self)@.len() ==> self.bytes@[i] == old(self)@[i],
                forall|i: int| old(self)@.len() <= i < self.bytes@.len() ==> self.bytes@[i] == 0u8,
            decreases size - n,
        {
            self.bytes.push(0u8);
            n = n + 1;
        }
    }

    /// A read-only view of the buffer's bytes, for export to a wire format.
    pub fn as_slice(&self) -> (r: &[u8])
        ensures
            r@ == self@,
    {
        self.bytes.as_slice()
    }

    /// The byte at the given index. Out-of-range access is a caller error,
    /// not a recoverable result.
    pub fn index(&self, index: usize) -> (r: u8)
        requires
            index < self@.len(),
        ensures
            r == self@[index as int],
    {
        self.bytes[index]
    }

    /// Replaces the byte at the given index. Out-of-range access is a caller
    /// error, not a recoverable result.
    pub fn set_byte(&mut self, index: usize, value: u8)
        requires
            index < old(self)@.len(),
        ensures
            final(self)@ == old(self)@.update(index as int, value),
    {
        self.bytes[index] = value;
    }

    /// A mask with the low `bits` bits of a byte set.
    fn get_mask(bits: usize) -> (r: u8)
        requires
            1 <= bits <= 8,
        ensures
            r == 0xffu8 >> ((8 - bits) as u8),
    {
        let b: u32 = bits as u32;
        proof {
            assert((1u32 << b) >= 1 && ((1u32 << b) - 1) as u8 == 0xffu8 >> ((8 - b) as u8))
                by (bit_vector)
                requires
                    1 <= b <= 8,
            ;
        }
        ((1u32 << b) - 1) as u8
    }

    /// Inserts `value` into bits `start_bit ..= stop_bit` of the buffer.
    ///
    /// The value is first masked to the low `stop_bit - start_bit + 1` bits;
    /// higher bits the caller passed are silently discarded. Bits of the
    /// buffer outside the range are preserved. The buffer is not changed at
    /// all when the range is invalid.
    pub fn insert_u64(&mut self, value: u64, start_bit: usize, stop_bit: usize) -> (res: Result<
        (),
        BitFieldError,
    >)
        ensures
            final(self)@.len() == old(self)@.len(),
            res is Err ==> final(self)@ == old(self)@,
            (res matches Err(BitFieldError::NegativeRange)) <==> start_bit > stop_bit,
            (res matches Err(BitFieldError::InvalidIndex)) <==> (start_bit <= stop_bit && stop_bit
                / 8 >= old(self)@.len()),
            (res matches Err(BitFieldError::ExceededDataRange)) <==> (start_bit <= stop_bit
                && stop_bit / 8 < old(self)@.len() && stop_bit - start_bit >= 64),
            res is Ok <==> (start_bit <= stop_bit && stop_bit / 8 < old(self)@.len() && stop_bit
                - start_bit < 64),
            res is Ok ==> forall|j: int|
                0 <= j < 8 * old(self)@.len() && !(start_bit <= j <= stop_bit)
                    ==> #[trigger] seq_bit(final(self)@, j) == seq_bit(old(self)@, j),
            res is Ok ==> forall|j: int|
                start_bit <= j <= stop_bit ==> #[trigger] seq_bit(final(self)@, j) == u64_bit(
                    value,
                    stop_bit - j,
                ),
            res is Ok ==> range_value(final(self)@, start_bit as int, stop_bit as int) == (value as int)
                % (pow2((stop_bit - start_bit + 1) as nat) as int),
    {
        let start_byte = start_bit / 8;
        let stop_byte = stop_bit / 8;

        if start_bit > stop_bit {
            return Err(BitFieldError::NegativeRange);
        }
        let byte_length = (stop_byte - start_byte) + 1;

        if self.bytes.len() <= stop_byte {
            return Err(BitFieldError::InvalidIndex);
        }
        if stop_bit - start_bit >= 64 {
            return Err(BitFieldError::ExceededDataRange);
        }
        proof {
            lemma_fundamental_div_mod(start_bit as int, 8);
            lemma_fundamental_div_mod(stop_bit as int, 8);
        }

        let ghost s0 = self.bytes@;
        let mut i: usize = 0;
        #[verifier::loop_isolation(false)]
        while i < byte_length
            invariant
                i <= byte_length,
                self.bytes@.len() == s0.len(),
                forall|bi: int|
                    0 <= bi < s0.len() && !(start_byte <= bi < start_byte + i)
                        ==> self.bytes@[bi] == s0[bi],
                forall|j: int|
                    8 * start_byte <= j < 8 * (start_byte + i) ==> #[trigger] seq_bit(
                        self.bytes@,
                        j,
                    ) == (if start_bit <= j <= stop_bit {
                        u64_bit(value, stop_bit - j)
                    } else {
                        seq_bit(s0, j)
                    }),
            decreases byte_length - i,
        {
            let cb = start_byte + i;
            let byte_start = 8 * cb;
            let cs = if byte_start < start_bit {
                start_bit
            } else {
                byte_start
            };
            let ce = if stop_bit - byte_start >= 8 {
                byte_start + 7
            } else {
                stop_bit
            };
            let bits = ce - cs + 1;
            let shift_bits = stop_bit - ce;
            let adjust = 7 - (ce - byte_start);
            let mask0 = Self::get_mask(bits);
            let byte_mask = mask0 << (adjust as u8);
            let byte_value = (((value >> (shift_bits as u64)) as u8) & mask0) << (adjust as u8);
            let ghost s_prev = self.bytes@;
            let old_b = self.bytes[cb];
            self.bytes[cb] = (old_b & !byte_mask) | byte_value;
            proof {
                let p = cs - byte_start;
                let q = ce - byte_start;
                let sh = shift_bits as int;
                let nb = (old_b & !byte_mask) | byte_value;
                assert(nb == inserted_byte(value, old_b, p as int, q as int, sh));
                assert(old_b == s0[cb as int]);
                assert forall|j: int|
                    8 * start_byte <= j < 8 * (start_byte + i + 1) implies #[trigger] seq_bit(
                    self.bytes@,
                    j,
                ) == (if start_bit <= j <= stop_bit {
                    u64_bit(value, stop_bit - j)
                } else {
                    seq_bit(s0, j)
                }) by {
                    if j < 8 * cb {
                        lemma_fundamental_div_mod(j, 8);
                        assert(j / 8 < cb);
                        assert(self.bytes@[j / 8] == s_prev[j / 8]);
                        assert(seq_bit(self.bytes@, j) == seq_bit(s_prev, j));
                    } else {
                        lemma_div8(j, cb as int);
                        let r = j - 8 * cb;
                        lemma_inserted_byte_bits(value, old_b, p as int, q as int, sh, r);
                        assert(seq_bit(self.bytes@, j) == crate::model::byte_bit(nb, r));
                        if cs as int <= j <= ce as int {
                            assert(sh + q - r == stop_bit - j);
                        } else {
                            assert(crate::model::byte_bit(nb, r) == crate::model::byte_bit(
                                old_b,
                                r,
                            ));
                            assert(seq_bit(s0, j) == crate::model::byte_bit(s0[cb as int], r));
                        }
                    }
                }
            }
            i = i + 1;
        }
        proof {
            assert forall|j: int|
                0 <= j < 8 * s0.len() && !(start_bit <= j <= stop_bit) implies #[trigger] seq_bit(
                self.bytes@,
                j,
            ) == seq_bit(s0, j) by {
                if j < 8 * start_byte || j >= 8 * (start_byte + byte_length) {
                    lemma_fundamental_div_mod(j, 8);
                    assert(self.bytes@[j / 8] == s0[j / 8]);
                }
            }
            lemma_round_trip(self.bytes@, value, start_bit as int, stop_bit as int);
        }
        Ok(())
    }

    /// Inserts a pointer-sized value: rejects ranges wider than the pointer
    /// width, then delegates to the 64-bit engine.
    pub fn insert_uint(&mut self, value: usize, start_bit: usize, stop_bit: usize) -> (res: Result<
        (),
        BitFieldError,
    >)
        ensures
            final(self)@.len() == old(self)@.len(),
            res is Err ==> final(self)@ == old(self)@,
            (res matches Err(BitFieldError::NegativeRange)) <==> start_bit > stop_bit,
            (res matches Err(BitFieldError::ExceededDataRange)) <==> (start_bit <= stop_bit
                && stop_bit - start_bit >= usize::BITS),
            (res matches Err(BitFieldError::InvalidIndex)) <==> (start_bit <= stop_bit && stop_bit
                - start_bit < usize::BITS && stop_bit / 8 >= old(self)@.len()),
            res is Ok <==> (start_bit <= stop_bit && stop_bit - start_bit < usize::BITS && stop_bit
                / 8 < old(self)@.len()),
            res is Ok ==> forall|j: int|
                0 <= j < 8 * old(self)@.len() && !(start_bit <= j <= stop_bit)
                    ==> #[trigger] seq_bit(final(self)@, j) == seq_bit(old(self)@, j),
            res is Ok ==> range_value(final(self)@, start_bit as int, stop_bit as int) == (
            value as int) % (pow2((stop_bit - start_bit + 1) as nat) as int),
    {
        if start_bit <= stop_bit && stop_bit - start_bit >= (usize::BITS as usize) {
            return Err(BitFieldError::ExceededDataRange);
        }
        self.insert_u64(value as u64, start_bit, stop_bit)
    }

    /// Inserts a 32-bit value: rejects ranges wider than 32 bits, then
    /// delegates to the 64-bit engine.
    pub fn insert_u32(&mut self, value: u32, start_bit: usize, stop_bit: usize) -> (res: Result<
        (),
        BitFieldError,
    >)
        ensures
            final(self)@.len() == old(self)@.len(),
            res is Err ==> final(self)@ == old(self)@,
            (res matches Err(BitFieldError::NegativeRange)) <==> start_bit > stop_bit,
            (res matches Err(BitFieldError::ExceededDataRange)) <==> (start_bit <= stop_bit
                && stop_bit - start_bit >= 32),
            (res matches Err(BitFieldError::InvalidIndex)) <==> (start_bit <= stop_bit && stop_bit
                - start_bit < 32 && stop_bit / 8 >= old(self)@.len()),
            res is Ok <==> (start_bit <= stop_bit && stop_bit - start_bit < 32 && stop_bit / 8
                < old(self)@.len()),
            res is Ok ==> forall|j: int|
                0 <= j < 8 * old(self)@.len() && !(start_bit <= j <= stop_bit)
                    ==> #[trigger] seq_bit(final(self)@, j) == seq_bit(old(self)@, j),
            res is Ok ==> range_value(final(self)@, start_bit as int, stop_bit as int) == (
            value as int) % (pow2((stop_bit - start_bit + 1) as nat) as int),
    {
        if start_bit <= stop_bit && stop_bit - start_bit >= 32 {
            return Err(BitFieldError::ExceededDataRange);
        }
        self.insert_u64(value as u64, start_bit, stop_bit)
    }

    /// Inserts a 16-bit value: rejects ranges wider than 16 bits, then
    /// delegates to the 64-bit engine.
    pub fn insert_u16(&mut self, value: u16, start_bit: usize, stop_bit: usize) -> (res: Result<
        (),
        BitFieldError,
    >)
        ensures
            final(self)@.len() == old(self)@.len(),
            res is Err ==> final(self)@ == old(self)@,
            (res matches Err(BitFieldError::NegativeRange)) <==> start_bit > stop_bit,
            (res matches Err(BitFieldError::ExceededDataRange)) <==> (start_bit <= stop_bit
                && stop_bit - start_bit >= 16),
            (res matches Err(BitFieldError::InvalidIndex)) <==> (start_bit <= stop_bit && stop_bit
                - start_bit < 16 && stop_bit / 8 >= old(self)@.len()),
            res is Ok <==> (start_bit <= stop_bit && stop_bit - start_bit < 16 && stop_bit / 8
                < old(self)@.len()),
            res is Ok ==> forall|j: int|
                0 <= j < 8 * old(self)@.len() && !(start_bit <= j <= stop_bit)
                    ==> #[trigger] seq_bit(final(self)@, j) == seq_bit(old(self)@, j),
            res is Ok ==> range_value(final(self)@, start_bit as int, stop_bit as int) == (
            value as int) % (pow2((stop_bit - start_bit + 1) as nat) as int),
    {
        if start_bit <= stop_bit && stop_bit - start_bit >= 16 {
            return Err(BitFieldError::ExceededDataRange);
        }
        self.insert_u64(value as u64, start_bit, stop_bit)
    }

    /// Inserts a value into a range at most 8 bits wide, then delegates to the
    /// 64-bit engine.
    pub fn insert_u8(&mut self, value: u16, start_bit: usize, stop_bit: usize) -> (res: Result<
        (),
        BitFieldError,
    >)
        ensures
            final(self)@.len() == old(self)@.len(),
            res is Err ==> final(self)@ == old(self)@,
            (res matches Err(BitFieldError::NegativeRange)) <==> start_bit > stop_bit,
            (res matches Err(BitFieldError::ExceededDataRange)) <==> (start_bit <= stop_bit
                && stop_bit - start_bit >= 8),
            (res matches Err(BitFieldError::InvalidIndex)) <==> (start_bit <= stop_bit && stop_bit
                - start_bit < 8 && stop_bit / 8 >= old(self)@.len()),
            res is Ok <==> (start_bit <= stop_bit && stop_bit - start_bit < 8 && stop_bit / 8
                < old(self)@.len()),
            res is Ok ==> forall|j: int|
                0 <= j < 8 * old(self)@.len() && !(start_bit <= j <= stop_bit)
                    ==> #[trigger] seq_bit(final(self)@, j) == seq_bit(old(self)@, j),
            res is Ok ==> range_value(final(self)@, start_bit as int, stop_bit as int) == (
            value as int) % (pow2((stop_bit - start_bit + 1) as nat) as int),
    {
        if start_bit <= stop_bit && stop_bit - start_bit >= 8 {
            return Err(BitFieldError::ExceededDataRange);
        }
        self.insert_u64(value as u64, start_bit, stop_bit)
    }

    /// Reads the value held by bits `start_bit ..= stop_bit` of the buffer,
    /// most significant bit first.
    pub fn retrieve_u64(&self, start_bit: usize, stop_bit: usize) -> (res: Result<
        u64,
        BitFieldError,
    >)
        ensures
            (res matches Err(BitFieldError::NegativeRange)) <==> start_bit > stop_bit,
            (res matches Err(BitFieldError::InvalidIndex)) <==> (start_bit <= stop_bit && stop_bit
                / 8 >= self@.len()),
            (res matches Err(BitFieldError::ExceededDataRange)) <==> (start_bit <= stop_bit
                && stop_bit / 8 < self@.len() && stop_bit - start_bit >= 64),
            res is Ok <==> (start_bit <= stop_bit && stop_bit / 8 < self@.len() && stop_bit
                - start_bit < 64),
            res matches Ok(v) ==> v as int == range_value(
                self@,
                start_bit as int,
                stop_bit as int,
            ),
            res matches Ok(v) ==> v < pow2((stop_bit - start_bit + 1) as nat),
            res matches Ok(v) ==> forall|k: int|
                0 <= k < 64 ==> #[trigger] u64_bit(v, k) == (k <= stop_bit - start_bit && seq_bit(
                    self@,
                    stop_bit - k,
                )),
    {
        let start_byte = start_bit / 8;
        let stop_byte = stop_bit / 8;

        if start_bit > stop_bit {
            return Err(BitFieldError::NegativeRange);
        }
        let byte_length = (stop_byte - start_byte) + 1;

        if self.bytes.len() <= stop_byte {
            return Err(BitFieldError::InvalidIndex);
        }
        if stop_bit - start_bit >= 64 {
            return Err(BitFieldError::ExceededDataRange);
        }
        proof {
            lemma_fundamental_div_mod(start_bit as int, 8);
            lemma_fundamental_div_mod(stop_bit as int, 8);
            lemma2_to64();
            vstd::arithmetic::power2::lemma2_to64_rest();
        }

        let mut value: u64 = 0;
        let mut i: usize = 0;
        #[verifier::loop_isolation(false)]
        while i < byte_length
            invariant
                i <= byte_length,
                value as int == range_value(
                    self.bytes@,
                    start_bit as int,
                    processed_stop(start_byte as int, stop_bit as int, i as int),
                ),
            decreases byte_length - i,
        {
            let cb = start_byte + i;
            let byte_start = 8 * cb;
            let cs = if byte_start < start_bit {
                start_bit
            } else {
                byte_start
            };
            let ce = if stop_bit - byte_start >= 8 {
                byte_start + 7
            } else {
                stop_bit
            };
            let bits = ce - cs + 1;
            let adjust = 7 - (ce - byte_start);
            let mask0 = Self::get_mask(bits);
            let byte_mask = mask0 << (adjust as u8);
            let b = self.bytes[cb];
            let tmp = (b & byte_mask) >> (adjust as u8);
            proof {
                let p = cs - byte_start;
                let q = ce - byte_start;
                lemma_masked_extract(b, p as int, q as int);
                lemma_byte_extract(b, p as int, q as int);
                lemma_byte_range_value_bound(b, p as int, q as int);
                assert(tmp as int == byte_range_value(b, p as int, q as int));
                lemma_div8(cs as int, cb as int);
                lemma_div8(ce as int, cb as int);
                lemma_range_value_in_byte(self.bytes@, cs as int, ce as int);
                assert(tmp as int == range_value(self.bytes@, cs as int, ce as int));

                // The value gathered so far ends right before this byte's part.
                assert(processed_stop(start_byte as int, stop_bit as int, i as int) == cs - 1 || (i
                    == 0 && cs == start_bit));
                assert(range_value(self.bytes@, start_bit as int, cs - 1) == value as int);

                // Shifting the gathered value up by this byte's width is exact.
                lemma_range_value_bound(self.bytes@, start_bit as int, cs - 1);
                let wdone = (cs - start_bit) as nat;
                lemma_pow2_adds(wdone, bits as nat);
                lemma_pow2_pos(bits as nat);
                assert(value < pow2(wdone));
                assert((value as int) * (pow2(bits as nat) as int) <= (pow2(wdone) - 1) * (pow2(
                    bits as nat,
                ) as int)) by {
                    vstd::arithmetic::mul::lemma_mul_inequality(
                        value as int,
                        pow2(wdone) - 1,
                        pow2(bits as nat) as int,
                    );
                }
                assert((pow2(wdone) - 1) * (pow2(bits as nat) as int) == pow2(wdone) * pow2(
                    bits as nat,
                ) - pow2(bits as nat)) by {
                    vstd::arithmetic::mul::lemma_mul_is_distributive_sub_other_way(
                        pow2(bits as nat) as int,
                        pow2(wdone) as int,
                        1,
                    );
                }
                if (ce + 1 - start_bit) < 64 {
                    vstd::arithmetic::power2::lemma_pow2_strictly_increases(
                        (ce + 1 - start_bit) as nat,
                        64,
                    );
                }
                assert(value * pow2(bits as nat) + tmp < pow2(64));
                vstd::bits::lemma_u64_shl_is_mul(value, bits as u64);
                vstd::bits::lemma_u64_shl_is_mul(1u64, bits as u64);
                lemma_shl_or_is_add(value, tmp as u64, bits as u64);
                lemma_range_value_split(self.bytes@, start_bit as int, cs - 1, ce as int);
            }
            value = (value << (bits as u64)) | (tmp as u64);
            i = i + 1;
        }
        proof {
            assert(processed_stop(start_byte as int, stop_bit as int, byte_length as int)
                == stop_bit);
            lemma_range_value_bound(self.bytes@, start_bit as int, stop_bit as int);
            assert forall|k: int| 0 <= k < 64 implies #[trigger] u64_bit(value, k) == (k <= stop_bit
                - start_bit && seq_bit(self@, stop_bit - k)) by {
                lemma_range_value_bits(self.bytes@, start_bit as int, stop_bit as int, k);
            }
        }
        Ok(value)
    }

    /// Reads a pointer-sized value: rejects ranges wider than the pointer
    /// width, then delegates to the 64-bit engine and narrows the result.
    pub fn retrieve_uint(&self, start_bit: usize, stop_bit: usize) -> (res: Result<
        usize,
        BitFieldError,
    >)
        ensures
            (res matches Err(BitFieldError::NegativeRange)) <==> start_bit > stop_bit,
            (res matches Err(BitFieldError::ExceededDataRange)) <==> (start_bit <= stop_bit
                && stop_bit - start_bit >= usize::BITS),
            (res matches Err(BitFieldError::InvalidIndex)) <==> (start_bit <= stop_bit && stop_bit
                - start_bit < usize::BITS && stop_bit / 8 >= self@.len()),
            res is Ok <==> (start_bit <= stop_bit && stop_bit - start_bit < usize::BITS && stop_bit
                / 8 < self@.len()),
            res matches Ok(v) ==> v as int == range_value(
                self@,
                start_bit as int,
                stop_bit as int,
            ),
    {
        if start_bit <= stop_bit && stop_bit - start_bit >= (usize::BITS as usize) {
            return Err(BitFieldError::ExceededDataRange);
        }
        match self.retrieve_u64(start_bit, stop_bit) {
            Ok(v) => {
                proof {
                    lemma2_to64();
                    vstd::arithmetic::power2::lemma2_to64_rest();
                    if stop_bit - start_bit + 1 < usize::BITS {
                        vstd::arithmetic::power2::lemma_pow2_strictly_increases(
                            (stop_bit - start_bit + 1) as nat,
                            usize::BITS as nat,
                        );
                    }
                }
                Ok(v as usize)
            },
            Err(e) => Err(e),
        }
    }

    /// Reads a 32-bit value: rejects ranges wider than 32 bits, then delegates
    /// to the 64-bit engine and narrows the result.
    pub fn retrieve_u32(&self, start_bit: usize, stop_bit: usize) -> (res: Result<
        u32,
        BitFieldError,
    >)
        ensures
            (res matches Err(BitFieldError::NegativeRange)) <==> start_bit > stop_bit,
            (res matches Err(BitFieldError::ExceededDataRange)) <==> (start_bit <= stop_bit
                && stop_bit - start_bit >= 32),
            (res matches Err(BitFieldError::InvalidIndex)) <==> (start_bit <= stop_bit && stop_bit
                - start_bit < 32 && stop_bit / 8 >= self@.len()),
            res is Ok <==> (start_bit <= stop_bit && stop_bit - start_bit < 32 && stop_bit / 8
                < self@.len()),
            res matches Ok(v) ==> v as int == range_value(
                self@,
                start_bit as int,
                stop_bit as int,
            ),
    {
        if start_bit <= stop_bit && stop_bit - start_bit >= 32 {
            return Err(BitFieldError::ExceededDataRange);
        }
        match self.retrieve_u64(start_bit, stop_bit) {
            Ok(v) => {
                proof {
                    lemma2_to64();
                    if stop_bit - start_bit + 1 < 32 {
                        vstd::arithmetic::power2::lemma_pow2_strictly_increases(
                            (stop_bit - start_bit + 1) as nat,
                            32,
                        );
                    }
                }
                Ok(v as u32)
            },
            Err(e) => Err(e),
        }
    }

    /// Reads a 16-bit value: rejects ranges wider than 16 bits, then delegates
    /// to the 64-bit engine and narrows the result.
    pub fn retrieve_u16(&self, start_bit: usize, stop_bit: usize) -> (res: Result<
        u16,
        BitFieldError,
    >)
        ensures
            (res matches Err(BitFieldError::NegativeRange)) <==> start_bit > stop_bit,
            (res matches Err(BitFieldError::ExceededDataRange)) <==> (start_bit <= stop_bit
                && stop_bit - start_bit >= 16),
            (res matches Err(BitFieldError::InvalidIndex)) <==> (start_bit <= stop_bit && stop_bit
                - start_bit < 16 && stop_bit / 8 >= self@.len()),
            res is Ok <==> (start_bit <= stop_bit && stop_bit - start_bit < 16 && stop_bit / 8
                < self@.len()),
            res matches Ok(v) ==> v as int == range_value(
                self@,
                start_bit as int,
                stop_bit as int,
            ),
    {
        if start_bit <= stop_bit && stop_bit - start_bit >= 16 {
            return Err(BitFieldError::ExceededDataRange);
        }
        match self.retrieve_u64(start_bit, stop_bit) {
            Ok(v) => {
                proof {
                    lemma2_to64();
                    if stop_bit - start_bit + 1 < 16 {
                        vstd::arithmetic::power2::lemma_pow2_strictly_increases(
                            (stop_bit - start_bit + 1) as nat,
                            16,
                        );
                    }
                }
                Ok(v as u16)
            },
            Err(e) => Err(e),
        }
    }

    /// Reads an 8-bit value: rejects ranges wider than 8 bits, then delegates
    /// to the 64-bit engine and narrows the result.
    pub fn retrieve_u8(&self, start_bit: usize, stop_bit: usize) -> (res: Result<
        u8,
        BitFieldError,
    >)
        ensures
            (res matches Err(BitFieldError::NegativeRange)) <==> start_bit > stop_bit,
            (res matches Err(BitFieldError::ExceededDataRange)) <==> (start_bit <= stop_bit
                && stop_bit - start_bit >= 8),
            (res matches Err(BitFieldError::InvalidIndex)) <==> (start_bit <= stop_bit && stop_bit
                - start_bit < 8 && stop_bit / 8 >= self@.len()),
            res is Ok <==> (start_bit <= stop_bit && stop_bit - start_bit < 8 && stop_bit / 8
                < self@.len()),
            res matches Ok(v) ==> v as int == range_value(
                self@,
                start_bit as int,
                stop_bit as int,
            ),
    {
        if start_bit <= stop_bit && stop_bit - start_bit >= 8 {
            return Err(BitFieldError::ExceededDataRange);
        }
        match self.retrieve_u64(start_bit, stop_bit) {
            Ok(v) => {
                proof {
                    lemma2_to64();
                    if stop_bit - start_bit + 1 < 8 {
                        vstd::arithmetic::power2::lemma_pow2_strictly_increases(
                            (stop_bit - start_bit + 1) as nat,
                            8,
                        );
                    }
                }
                Ok(v as u8)
            },
            Err(e) => Err(e),
        }
    }

    /// Bitwise AND of two buffers, anchored at their last byte. The result has
    /// the longer operand's length; bytes beyond the shorter operand's reach
    /// stay zero.
    pub fn bitand(&self, rhs: &BitField) -> (r: BitField)
        ensures
            r@ == and_bytes(self@, rhs@),
    {
        let alen = self.bytes.len();
        let blen = rhs.bytes.len();
        let len = if alen < blen {
            blen
        } else {
            alen
        };
        let min = if alen < blen {
            alen
        } else {
            blen
        };
        let mut result = BitField::with_capacity(len);
        let mut t: usize = 0;
        #[verifier::loop_isolation(false)]
        while t < min
            invariant
                t <= min,
                result@.len() == len,
                forall|k: int|
                    len - t <= k < len ==> #[trigger] result@[k] == (self@[k + alen - len] & rhs@[k
                        + blen - len]),
                forall|k: int| 0 <= k < len - t ==> result@[k] == 0u8,
            decreases min - t,
        {
            let v = self.bytes[alen - 1 - t] & rhs.bytes[blen - 1 - t];
            result.bytes[len - 1 - t] = v;
            t = t + 1;
        }
        proof {
            assert forall|k: int| 0 <= k < len implies result@[k] == and_bytes(self@, rhs@)[k] by {
                let u = len - 1 - k;
                assert(0 <= u < len);
            }
            assert(result@ =~= and_bytes(self@, rhs@));
        }
        result
    }

    /// Bitwise OR of two buffers, anchored at their last byte. The result has
    /// the longer operand's length; bytes beyond the shorter operand's reach
    /// are copied from the longer operand.
    pub fn bitor(&self, rhs: &BitField) -> (r: BitField)
        ensures
            r@ == or_bytes(self@, rhs@),
    {
        let alen = self.bytes.len();
        let blen = rhs.bytes.len();
        let len = if alen < blen {
            blen
        } else {
            alen
        };
        let min = if alen < blen {
            alen
        } else {
            blen
        };
        let mut result = if alen < blen {
            BitField::from_slice(rhs.as_slice())
        } else {
            BitField::from_slice(self.as_slice())
        };
        let mut t: usize = 0;
        #[verifier::loop_isolation(false)]
        while t < min
            invariant
                t <= min,
                result@.len() == len,
                forall|k: int|
                    len - t <= k < len ==> #[trigger] result@[k] == (self@[k + alen - len] | rhs@[k
                        + blen - len]),
                forall|k: int|
                    0 <= k < len - t ==> result@[k] == (if alen < blen {
                        rhs@[k]
                    } else {
                        self@[k]
                    }),
            decreases min - t,
        {
            let v = self.bytes[alen - 1 - t] | rhs.bytes[blen - 1 - t];
            result.bytes[len - 1 - t] = v;
            t = t + 1;
        }
        proof {
            assert forall|k: int| 0 <= k < len implies result@[k] == or_bytes(self@, rhs@)[k] by {
                let u = len - 1 - k;
                assert(0 <= u < len);
            }
            assert(result@ =~= or_bytes(self@, rhs@));
        }
        result
    }

    /// Bitwise XOR of two buffers, anchored at their last byte. The result has
    /// the longer operand's length; bytes beyond the shorter operand's reach
    /// are copied from the longer operand.
    pub fn bitxor(&self, rhs: &BitField) -> (r: BitField)
        ensures
            r@ == xor_bytes(self@, rhs@),
    {
        let alen = self.bytes.len();
        let blen = rhs.bytes.len();
        let len = if alen < blen {
            blen
        } else {
            alen
        };
        let min = if alen < blen {
            alen
        } else {
            blen
        };
        let mut result = if alen < blen {
            BitField::from_slice(rhs.as_slice())
        } else {
            BitField::from_slice(self.as_slice())
        };
        let mut t: usize = 0;
        #[verifier::loop_isolation(false)]
        while t < min
            invariant
                t <= min,
                result@.len() == len,
                forall|k: int|
                    len - t <= k < len ==> #[trigger] result@[k] == (self@[k + alen - len] ^ rhs@[k
                        + blen - len]),
                forall|k: int|
                    0 <= k < len - t ==> result@[k] == (if alen < blen {
                        rhs@[k]
                    } else {
                        self@[k]
                    }),
            decreases min - t,
        {
            let v = self.bytes[alen - 1 - t] ^ rhs.bytes[blen - 1 - t];
            result.bytes[len - 1 - t] = v;
            t = t + 1;
        }
        proof {
            assert forall|k: int| 0 <= k < len implies result@[k] == xor_bytes(self@, rhs@)[k] by {
                let u = len - 1 - k;
                assert(0 <= u < len);
            }
            assert(result@ =~= xor_bytes(self@, rhs@));
        }
        result
    }

    /// Logical right shift of the whole buffer by `n` bits. The result has the
    /// same length; bits shifted past the end are discarded and the vacated
    /// high bits are zero. Shifting by 0 returns an equal buffer.
    pub fn shr(&self, n: usize) -> (r: BitField)
        requires
            8 * self@.len() <= usize::MAX,
        ensures
            r@.len() == self@.len(),
            forall|g: int|
                0 <= g < 8 * self@.len() ==> #[trigger] seq_bit(r@, g) == (n <= g && seq_bit(
                    self@,
                    g - n,
                )),
            n == 0 ==> r@ == self@,
    {
        let total_bits = 8 * self.bytes.len();
        let mut result = BitField::with_capacity(self.bytes.len());
        proof {
            assert forall|g: int| 0 <= g < 8 * self@.len() implies !seq_bit(result@, g) by {
                lemma_zero_seq_bit(result@, g);
            }
        }
        let mut i: usize = 0;
        let mut j: usize = n;
        #[verifier::loop_isolation(false)]
        while j < total_bits && total_bits - j >= 8
            invariant
                n <= j,
                i == j - n,
                j <= total_bits || j == n,
                result@.len() == self@.len(),
                forall|g: int|
                    0 <= g < 8 * self@.len() ==> #[trigger] seq_bit(result@, g) == (n <= g < j
                        && seq_bit(self@, g - n)),
            decreases total_bits - j,
        {
            proof {
                lemma_fundamental_div_mod(i + 7, 8);
                lemma_fundamental_div_mod(j + 7, 8);
                assert((i + 7) / 8 < self@.len());
                assert((j + 7) / 8 < self@.len());
            }
            let v = self.retrieve_u64(i, i + 7).unwrap();
            let ghost prev = result@;
            let ins = result.insert_u64(v, j, j + 7);
            proof {
                assert(ins is Ok);
                assert forall|g: int|
                    0 <= g < 8 * self@.len() implies #[trigger] seq_bit(result@, g) == (n <= g < j
                    + 8 && seq_bit(self@, g - n)) by {
                    if j <= g <= j + 7 {
                        assert(seq_bit(result@, g) == u64_bit(v, j + 7 - g));
                        assert(u64_bit(v, j + 7 - g) == seq_bit(self@, i + 7 - (j + 7 - g)));
                    } else {
                        assert(seq_bit(result@, g) == seq_bit(prev, g));
                    }
                }
            }
            i = i + 8;
            j = j + 8;
        }
        if j < total_bits {
            let partial = (total_bits - 1) - j;
            proof {
                lemma_fundamental_div_mod(i + partial, 8);
                lemma_fundamental_div_mod(j + partial, 8);
                assert((i + partial) / 8 < self@.len());
                assert((j + partial) / 8 < self@.len());
            }
            let v = self.retrieve_u64(i, i + partial).unwrap();
            let ghost prev = result@;
            let ins = result.insert_u64(v, j, j + partial);
            proof {
                assert(ins is Ok);
                assert forall|g: int|
                    0 <= g < 8 * self@.len() implies #[trigger] seq_bit(result@, g) == (n <= g
                    && seq_bit(self@, g - n)) by {
                    if j <= g <= j + partial {
                        assert(seq_bit(result@, g) == u64_bit(v, j + partial - g));
                        assert(u64_bit(v, j + partial - g) == seq_bit(
                            self@,
                            i + partial - (j + partial - g),
                        ));
                    } else {
                        assert(seq_bit(result@, g) == seq_bit(prev, g));
                    }
                }
            }
        }
        proof {
            if n == 0 {
                lemma_equal_bits_equal_bytes(result@, self@);
            }
        }
        result
    }

    /// Logical left shift of the whole buffer by `n` bits. The result has the
    /// same length; bits shifted past the start are discarded and the vacated
    /// low bits are zero. Shifting by 0 returns an equal buffer.
    pub fn shl(&self, n: usize) -> (r: BitField)
        requires
            8 * self@.len() <= usize::MAX,
        ensures
            r@.len() == self@.len(),
            forall|g: int|
                0 <= g < 8 * self@.len() ==> #[trigger] seq_bit(r@, g) == (g + n < 8 * self@.len()
                    && seq_bit(self@, g + n)),
            n == 0 ==> r@ == self@,
    {
        let total_bits = 8 * self.bytes.len();
        let mut result = BitField::with_capacity(self.bytes.len());
        proof {
            assert forall|g: int| 0 <= g < 8 * self@.len() implies !seq_bit(result@, g) by {
                lemma_zero_seq_bit(result@, g);
            }
        }
        let mut i: usize = 0;
        let mut j: usize = n;
        #[verifier::loop_isolation(false)]
        while j < total_bits && total_bits - j >= 8
            invariant
                n <= j,
                i == j - n,
                j <= total_bits || j == n,
                result@.len() == self@.len(),
                forall|g: int|
                    0 <= g < 8 * self@.len() ==> #[trigger] seq_bit(result@, g) == (g < i
                        && seq_bit(self@, g + n)),
            decreases total_bits - j,
        {
            proof {
                lemma_fundamental_div_mod(i + 7, 8);
                lemma_fundamental_div_mod(j + 7, 8);
                assert((i + 7) / 8 < self@.len());
                assert((j + 7) / 8 < self@.len());
            }
            let v = self.retrieve_u64(j, j + 7).unwrap();
            let ghost prev = result@;
            let ins = result.insert_u64(v, i, i + 7);
            proof {
                assert(ins is Ok);
                assert forall|g: int|
                    0 <= g < 8 * self@.len() implies #[trigger] seq_bit(result@, g) == (g < i + 8
                    && seq_bit(self@, g + n)) by {
                    if i <= g <= i + 7 {
                        assert(seq_bit(result@, g) == u64_bit(v, i + 7 - g));
                        assert(u64_bit(v, i + 7 - g) == seq_bit(self@, j + 7 - (i + 7 - g)));
                    } else {
                        assert(seq_bit(result@, g) == seq_bit(prev, g));
                    }
                }
            }
            i = i + 8;
            j = j + 8;
        }
        if j < total_bits {
            let partial = (total_bits - 1) - j;
            proof {
                lemma_fundamental_div_mod(i + partial, 8);
                lemma_fundamental_div_mod(j + partial, 8);
                assert((i + partial) / 8 < self@.len());
                assert((j + partial) / 8 < self@.len());
            }
            let v = self.retrieve_u64(j, j + partial).unwrap();
            let ghost prev = result@;
            let ins = result.insert_u64(v, i, i + partial);
            proof {
                assert(ins is Ok);
                assert forall|g: int|
                    0 <= g < 8 * self@.len() implies #[trigger] seq_bit(result@, g) == (g + n < 8
                    * self@.len() && seq_bit(self@, g + n)) by {
                    if i <= g <= i + partial {
                        assert(seq_bit(result@, g) == u64_bit(v, i + partial - g));
                        assert(u64_bit(v, i + partial - g) == seq_bit(
                            self@,
                            j + partial - (i + partial - g),
                        ));
                    } else {
                        assert(seq_bit(result@, g) == seq_bit(prev, g));
                    }
                }
            }
        } else {
            proof {
                assert(j >= total_bits);
                assert forall|g: int|
                    0 <= g < 8 * self@.len() implies #[trigger] seq_bit(result@, g) == (g + n < 8
                    * self@.len() && seq_bit(self@, g + n)) by {
                    if g + n < 8 * self@.len() {
                        assert(g < i);
                    } else {
                        assert(!(g < i));
                    }
                }
            }
        }
        proof {
            if n == 0 {
                lemma_equal_bits_equal_bytes(result@, self@);
            }
        }
        result
    }

    /// Bitwise complement: a new buffer of the same length with every byte
    /// complemented.
    pub fn not(&self) -> (r: BitField)
        ensures
            r@ == not_bytes(self@),
    {
        let len = self.bytes.len();
        let mut result = BitField::with_capacity(len);
        let mut i: usize = 0;
        #[verifier::loop_isolation(false)]
        while i < len
            invariant
                i <= len,
                result@.len() == len,
                forall|k: int| 0 <= k < i ==> result@[k] == !self@[k],
            decreases len - i,
        {
            result.bytes[i] = !self.bytes[i];
            i = i + 1;
        }
        proof {
            assert(result@ =~= not_bytes(self@));
        }
        result
    }

    /// A human-readable dump: one row per four bytes, with the byte offset,
    /// the bytes in binary, and the bytes in hexadecimal. A display
    /// collaborator outside the packing engine's contract.
    pub fn debug_string(&self) -> String {
        let mut s = String::new();
        s.append("Offset  Binary                                Hex      \n");
        s.append("=======================================================\n");

        let len = self.bytes.len();
        proof {
            lemma_fundamental_div_mod(len as int, 4);
        }
        let mut i: usize = 0;
        #[verifier::loop_isolation(false)]
        while i < len / 4
            invariant
                i <= len / 4,
            decreases len / 4 - i,
        {
            push_offset(&mut s, i * 4);
            s.append(": ");
            push_binary(&mut s, self.bytes[i * 4]);
            s.append(" ");
            push_binary(&mut s, self.bytes[i * 4 + 1]);
            s.append(" ");
            push_binary(&mut s, self.bytes[i * 4 + 2]);
            s.append(" ");
            push_binary(&mut s, self.bytes[i * 4 + 3]);
            s.append("   ");
            push_hex_byte(&mut s, self.bytes[i * 4]);
            push_hex_byte(&mut s, self.bytes[i * 4 + 1]);
            s.append(" ");
            push_hex_byte(&mut s, self.bytes[i * 4 + 2]);
            push_hex_byte(&mut s, self.bytes[i * 4 + 3]);
            s.append("\n");
            i = i + 1;
        }

        if i * 4 != len {
            let rem = len % 4;
            push_offset(&mut s, i * 4);
            s.append(": ");
            push_binary(&mut s, self.bytes[i * 4]);
            s.append(" ");
            if rem > 1 {
                push_binary(&mut s, self.bytes[i * 4 + 1]);
            } else {
                s.append("        ");
            }
            s.append(" ");
            if rem > 2 {
                push_binary(&mut s, self.bytes[i * 4 + 2]);
            } else {
                s.append("        ");
            }
            s.append(" ");
            s.append("        ");
            s.append("   ");
            push_hex_byte(&mut s, self.bytes[i * 4]);
            if rem > 1 {
                push_hex_byte(&mut s, self.bytes[i * 4 + 1]);
            } else {
                s.append("  ");
            }
            s.append(" ");
            if rem > 2 {
                push_hex_byte(&mut s, self.bytes[i * 4 + 2]);
            } else {
                s.append("  ");
            }
            s.append("  \n");
        }
        s
    }

    /// The buffer rendered as hexadecimal, two bytes to a group, groups
    /// separated by spaces. A display collaborator outside the packing
    /// engine's contract.
    pub fn hex_string(&self) -> String {
        let mut s = String::new();
        let len = self.bytes.len();
        let mut i: usize = 0;
        #[verifier::loop_isolation(false)]
        while i < len && len - i >= 2
            invariant
                i <= len,
            decreases len - i,
        {
            if i != 0 {
                s.append(" ");
            }
            push_hex_byte(&mut s, self.bytes[i]);
            push_hex_byte(&mut s, self.bytes[i + 1]);
            i = i + 2;
        }
        if i < len {
            if i != 0 {
                s.append(" ");
            }
            push_hex_byte(&mut s, self.bytes[i]);
        }
        s
    }
}

/// One lowercase hexadecimal digit, as a one-character string.
fn hex_digit(d: u8) -> &'static str
    requires
        d < 16,
{
    match d {
        0 => "0",
        1 => "1",
        2 => "2",
        3 => "3",
        4 => "4",
        5 => "5",
        6 => "6",
        7 => "7",
        8 => "8",
        9 => "9",
        10 => "a",
        11 => "b",
        12 => "c",
        13 => "d",
        14 => "e",
        _ => "f",
    }
}

/// Appends the two hexadecimal digits of a byte.
fn push_hex_byte(s: &mut String, b: u8) {
    proof {
        assert((b >> 4u8) < 16 && (b & 0x0fu8) < 16) by (bit_vector);
    }
    s.append(hex_digit(b >> 4u8));
    s.append(hex_digit(b & 0x0fu8));
}

/// Appends the eight binary digits of a byte, most significant first.
fn push_binary(s: &mut String, b: u8) {
    let mut p: usize = 0;
    while p < 8
        invariant
            p <= 8,
        decreases 8 - p,
    {
        let bit = (b >> ((7 - p) as u8)) & 1;
        if bit == 1 {
            s.append("1");
        } else {
            s.append("0");
        }
        p = p + 1;
    }
}

/// Appends the decimal digits of `n`, without padding.
fn push_decimal(s: &mut String, n: usize)
    decreases n,
{
    if n >= 10 {
        push_decimal(s, n / 10);
    }
    s.append(hex_digit((n % 10) as u8));
}

/// Appends the decimal digits of `n`, zero-padded to at least six places.
fn push_offset(s: &mut String, n: usize) {
    if n >= 1000000 {
        push_decimal(s, n / 1000000);
    }
    let m = n % 1000000;
    s.append(hex_digit((m / 100000 % 10) as u8));
    s.append(hex_digit((m / 10000 % 10) as u8));
    s.append(hex_digit((m / 1000 % 10) as u8));
    s.append(hex_digit((m / 100 % 10) as u8));
    s.append(hex_digit((m / 10 % 10) as u8));
    s.append(hex_digit((m % 10) as u8));
}

impl PartialEq for BitField {
    /// Two buffers are equal when they hold the same bytes.
    fn eq(&self, other: &BitField) -> (r: bool) {
        if self.bytes.len() != other.bytes.len() {
            return false;
        }
        let mut i: usize = 0;
        #[verifier::loop_isolation(false)]
        while i < self.bytes.len()
            invariant
                i <= self@.len(),
                forall|k: int| 0 <= k < i ==> self@[k] == other@[k],
            decreases self@.len() - i,
        {
            if self.bytes[i] != other.bytes[i] {
                proof {
                    assert(self@[i as int] != other@[i as int]);
                }
                return false;
            }
            i = i + 1;
        }
        proof {
            assert(self@ =~= other@);
        }
        true
    }
}

impl vstd::std_specs::cmp::PartialEqSpecImpl for BitField {
    open spec fn obeys_eq_spec() -> bool {
        true
    }

    open spec fn eq_spec(&self, other: &BitField) -> bool {
        self@ == other@
    }
}

} // verus!
