//! Reconstruction of a 64-bit cumulative encoder position from a raw 32-bit
//! hardware delta and an overflow/underflow status byte.

use vstd::prelude::*;

verus! {

/// The bit of `byte` at position `i`, counted from the most-significant end
/// (position 0 is the 0x80 bit).
pub open spec fn bit_from_msb(byte: u8, i: int) -> u8 {
    (byte >> ((7 - i) as usize)) & 1
}

/// A 32-bit value read as a two's-complement signed quantity.
pub open spec fn sign_extended(delta: u32) -> int {
    if delta < 0x8000_0000 {
        delta as int
    } else {
        delta as int - 0x1_0000_0000
    }
}

/// The corrected cumulative position: the previous total plus the
/// sign-extended delta, plus one full 32-bit wrap when the overflow bit
/// (0x20) of the status byte is set, minus one when the underflow bit (0x80)
/// is set. Both adjustments are independent.
pub open spec fn encoder_next(previous: int, delta: u32, status: u8) -> int {
    previous + sign_extended(delta) + (if status & 0x20 != 0 {
        0x1_0000_0000int
    } else {
        0int
    }) - (if status & 0x80 != 0 {
        0x1_0000_0000int
    } else {
        0int
    })
}

/// Law: with the overflow bit set and the underflow bit clear, the
/// reconstructed position is the previous total plus the sign-extended delta
/// plus 2^32.
pub proof fn lemma_encoder_overflow(previous: int, delta: u32, status: u8)
    requires
        status & 0x20 != 0,
        status & 0x80 == 0,
    ensures
        encoder_next(previous, delta, status) == previous + sign_extended(delta) + 0x1_0000_0000,
{
}

/// Law: with both flag bits clear, the reconstructed position is exactly the
/// previous total plus the sign-extended delta.
pub proof fn lemma_encoder_no_flags(previous: int, delta: u32, status: u8)
    requires
        status & 0x20 == 0,
        status & 0x80 == 0,
    ensures
        encoder_next(previous, delta, status) == previous + sign_extended(delta),
{
}

/// The eight bits of `byte`, most significant first.
pub fn get_bits(byte: u8) -> (r: [u8; 8])
    ensures
        forall|i: int| 0 <= i < 8 ==> r[i] == bit_from_msb(byte, i),
{
    let mut bits: [u8; 8] = [0, 0, 0, 0, 0, 0, 0, 0];
    let mut i: usize = 0;
    while i < 8
        invariant
            i <= 8,
            forall|j: int| 8 - i <= j < 8 ==> bits[j] == bit_from_msb(byte, j),
        decreases 8 - i,
    {
        bits[7 - i] = (byte >> i) & 1;
        i = i + 1;
    }
    bits
}

/// The pure reconstruction step for one encoder sample.
pub fn reconstruct(previous: i64, delta: u32, status: u8) -> (r: i64)
    requires
        i64::MIN <= encoder_next(previous as int, delta, status) <= i64::MAX,
    ensures
        r as int == encoder_next(previous as int, delta, status),
{
    let bits: [u8; 8] = get_bits(status);
    let underflow: bool = bits[0] != 0;
    let overflow: bool = bits[2] != 0;
    proof {
        assert((status >> 7usize) & 1 != 0 <==> status & 0x80 != 0) by (bit_vector);
        assert((status >> 5usize) & 1 != 0 <==> status & 0x20 != 0) by (bit_vector);
    }

    let signed_delta: i128 = if delta < 0x8000_0000 {
        delta as i128
    } else {
        delta as i128 - 0x1_0000_0000
    };

    let range: i128 = 0x1_0000_0000;
    let mut sum: i128 = previous as i128 + signed_delta;
    if overflow {
        sum = sum + range;
    }
    if underflow {
        sum = sum - range;
    }
    proof {
        assert(bits[0int] == bit_from_msb(status, 0));
        assert(bit_from_msb(status, 0) == (status >> 7usize) & 1);
        assert(bits[2int] == bit_from_msb(status, 2));
        assert(bit_from_msb(status, 2) == (status >> 5usize) & 1);
        assert(underflow <==> status & 0x80 != 0);
        assert(overflow <==> status & 0x20 != 0);
        assert(sum == encoder_next(previous as int, delta, status));
    }
    sum as i64
}

/// The reconstruction step applied to the raw result of a two-field read
/// transaction: field 0 is the delta, field 1 the status byte.
pub fn calculate_encoder(current_encoder_value: i64, motor_encoder: Vec<u32>) -> (r: i64)
    requires
        motor_encoder@.len() >= 2,
        i64::MIN <= encoder_next(
            current_encoder_value as int,
            motor_encoder@[0],
            motor_encoder@[1] as u8,
        ) <= i64::MAX,
    ensures
        r as int == encoder_next(
            current_encoder_value as int,
            motor_encoder@[0],
            motor_encoder@[1] as u8,
        ),
{
    reconstruct(current_encoder_value, motor_encoder[0], motor_encoder[1] as u8)
}

} // verus!
