//! The 32 data bits of a packet, kept in a bit array in transmission order:
//! index 0 is the first bit on the wire and the most significant bit of the
//! first field.

use bitvec::array::BitArray;
use bitvec::field::BitField;
use bitvec::order::Msb0;
use vstd::arithmetic::div_mod::{lemma_breakdown, lemma_div_denominator};
use vstd::arithmetic::power2::{lemma2_to64, lemma_pow2_pos, lemma_pow2_unfold, pow2};
use vstd::bits::lemma_u8_shr_is_div;
use vstd::prelude::*;

verus! {

/// Number of data bits in a packet.
pub const FRAME_BITS: usize = 32;

/// Bit `index` of `value`, bit 0 being the least significant one.
pub open spec fn bit_at(value: nat, index: nat) -> bool {
    (value / pow2(index)) % 2 == 1
}

/// The number that the bits from `start` up to `end` spell, most significant
/// bit first.
pub open spec fn field_value(bits: Seq<bool>, start: int, end: int) -> nat
    decreases end - start,
{
    if end <= start {
        0
    } else {
        2 * field_value(bits, start, end - 1) + if bits[end - 1] {
            1nat
        } else {
            0nat
        }
    }
}

/// `bits` with the bits from `start` up to `end` replaced by the low
/// `end - start` bits of `value`, most significant bit first.
pub open spec fn with_field(bits: Seq<bool>, start: int, end: int, value: nat) -> Seq<bool> {
    Seq::new(
        bits.len(),
        |i: int|
            if start <= i < end {
                bit_at(value, (end - 1 - i) as nat)
            } else {
                bits[i]
            },
    )
}

/// The bit array that holds the data bits of one packet: one `u32` read from
/// its most significant bit down.
#[verifier::external_body]
pub struct Frame {
    bits: BitArray<[u32; 1], Msb0>,
}

/// The bits that a frame holds, in index order.
pub uninterp spec fn frame_bits(frame: Frame) -> Seq<bool>;

impl Frame {
    /// `BitArray::new` on a zeroed element: an array of 32 bits, all of them
    /// clear.
    #[verifier::external_body]
    pub(crate) fn zeroed() -> (frame: Frame)
        ensures
            frame_bits(frame) == Seq::new(FRAME_BITS as nat, |i: int| false),
    {
        Frame { bits: BitArray::new([0u32; 1]) }
    }

    /// `BitField::store` on the sub-slice `start..end`: those bits take the
    /// low `end - start` bits of `value`, the most significant of them at
    /// `start`; every other bit keeps its state. The region may hold at most
    /// as many bits as `value` has, and must not be empty.
    #[verifier::external_body]
    pub(crate) fn store(&mut self, start: usize, end: usize, value: u16)
        requires
            start < end <= FRAME_BITS,
            end - start <= 16,
        ensures
            frame_bits(*final(self)) == with_field(
                frame_bits(*old(self)),
                start as int,
                end as int,
                value as nat,
            ),
    {
        self.bits[start..end].store::<u16>(value);
    }

    /// `BitField::load` on the sub-slice `start..end`: the number that those
    /// bits spell, the bit at `start` being the most significant, widened
    /// with zeros. The region may hold at most as many bits as the result
    /// has, and must not be empty.
    #[verifier::external_body]
    pub(crate) fn load(&self, start: usize, end: usize) -> (value: u16)
        requires
            start < end <= FRAME_BITS,
            end - start <= 16,
        ensures
            value == field_value(frame_bits(*self), start as int, end as int),
    {
        self.bits[start..end].load::<u16>()
    }

    /// `BitSlice::set`: the bit at `index` takes the state `bit`, every other
    /// bit keeps its own.
    #[verifier::external_body]
    pub(crate) fn set(&mut self, index: usize, bit: bool)
        requires
            index < FRAME_BITS,
        ensures
            frame_bits(*final(self)) == frame_bits(*old(self)).update(index as int, bit),
    {
        self.bits.set(index, bit);
    }

    /// `BitArray::into_iter`, collected: the bits from index 0 upwards.
    #[verifier::external_body]
    pub(crate) fn into_bits(self) -> (bits: Vec<bool>)
        ensures
            bits@ == frame_bits(self),
    {
        self.bits.into_iter().collect()
    }
}

/// Halving a number moves each of its bits one place down.
pub proof fn lemma_bit_at_half(value: nat, index: nat)
    ensures
        bit_at(value, index + 1) == bit_at(value / 2, index),
{
    lemma_pow2_unfold(index + 1);
    lemma_pow2_pos(index);
    lemma_div_denominator(value as int, 2, pow2(index) as int);
}

/// A run of bits that holds the low bits of `value`, most significant first,
/// spells `value` reduced to that many bits.
pub proof fn lemma_field_value_of_bits(bits: Seq<bool>, start: int, end: int, value: nat)
    requires
        0 <= start <= end <= bits.len(),
        forall|i: int| start <= i < end ==> bits[i] == bit_at(value, (end - 1 - i) as nat),
    ensures
        field_value(bits, start, end) == value % pow2((end - start) as nat),
    decreases end - start,
{
    if end == start {
        lemma2_to64();
    } else {
        let width = (end - start) as nat;
        assert forall|i: int| start <= i < end - 1 implies bits[i] == bit_at(
            value / 2,
            (end - 2 - i) as nat,
        ) by {
            lemma_bit_at_half(value, (end - 2 - i) as nat);
        }
        lemma_field_value_of_bits(bits, start, end - 1, value / 2);
        assert(bits[end - 1] == (value % 2 == 1)) by {
            lemma2_to64();
            assert(bits[end - 1] == bit_at(value, 0));
            assert(value as int / 1 == value);
        }
        lemma_pow2_unfold(width);
        lemma_pow2_pos((width - 1) as nat);
        lemma_breakdown(value as int, 2, pow2((width - 1) as nat) as int);
    }
}

/// A run of bits spells a number below two to the power of its length.
pub proof fn lemma_field_value_bound(bits: Seq<bool>, start: int, end: int)
    requires
        start <= end,
    ensures
        field_value(bits, start, end) < pow2((end - start) as nat),
    decreases end - start,
{
    if end == start {
        lemma2_to64();
    } else {
        lemma_field_value_bound(bits, start, end - 1);
        lemma_pow2_unfold((end - start) as nat);
    }
}

/// A bit of a byte, tested with a mask, is the bit that `bit_at` names.
pub proof fn lemma_bit_at_of_byte(byte: u8, index: u8)
    requires
        index < 8,
    ensures
        bit_at(byte as nat, index as nat) == (byte & (1u8 << index) != 0),
{
    lemma_u8_shr_is_div(byte, index);
    let shifted = byte >> index;
    assert((shifted % 2 == 1) == (byte & (1u8 << index) != 0)) by (bit_vector)
        requires
            shifted == byte >> index,
            index < 8,
    ;
}

/// The bits of `high * 2^width + low`: the low `width` of them are those of
/// `low`, and those of `high` stand above them.
pub proof fn lemma_bit_at_joined(high: nat, low: nat, width: nat, index: nat)
    requires
        low < pow2(width),
    ensures
        bit_at(high * pow2(width) + low, index) == if index < width {
            bit_at(low, index)
        } else {
            bit_at(high, (index - width) as nat)
        },
    decreases width,
{
    lemma2_to64();
    let joined = high * pow2(width) + low;
    if width == 0 {
        assert(high * 1 == high) by (nonlinear_arith);
    } else {
        let half = pow2((width - 1) as nat);
        lemma_pow2_unfold(width);
        assert(high * (2 * half) == 2 * (high * half)) by (nonlinear_arith);
        assert(joined / 2 == high * half + low / 2);
        assert(joined % 2 == low % 2);
        lemma_bit_at_joined(high, low / 2, (width - 1) as nat, (index - 1) as nat);
        if index == 0 {
            assert(joined as int / 1 == joined);
            assert(low as int / 1 == low);
        } else {
            lemma_bit_at_half(joined, (index - 1) as nat);
            lemma_bit_at_half(low, (index - 1) as nat);
        }
    }
}

} // verus!
