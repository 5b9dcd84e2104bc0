//! Incremental CRC-16/CCITT checksum state (polynomial 0x1021, initial value
//! 0, non-reflected, no final XOR), mixed one byte at a time.

use vstd::prelude::*;

verus! {

/// One shift step of the CRC register: shift left, folding the polynomial
/// 0x1021 back in when the top bit falls out.
pub open spec fn crc_step(c: u16) -> u16 {
    if c & 0x8000 != 0 {
        (c << 1) ^ 0x1021
    } else {
        c << 1
    }
}

/// `n` shift steps applied to the register.
pub open spec fn crc_steps(c: u16, n: nat) -> u16
    decreases n,
{
    if n == 0 {
        c
    } else {
        crc_step(crc_steps(c, (n - 1) as nat))
    }
}

/// Mixing one byte into the register: XOR into the high byte, then eight
/// shift steps.
pub open spec fn crc_update_spec(c: u16, b: u8) -> u16 {
    crc_steps(c ^ ((b as u16) << 8), 8)
}

/// The register value after feeding every byte of `s`, in order, into a
/// register that starts at `c`.
pub open spec fn crc_feed(c: u16, s: Seq<u8>) -> u16
    decreases s.len(),
{
    if s.len() == 0 {
        c
    } else {
        crc_feed(crc_update_spec(c, s[0]), s.skip(1))
    }
}

/// The CRC-16/CCITT of a byte sequence, from a cleared register.
pub open spec fn crc_of(s: Seq<u8>) -> u16 {
    crc_feed(0, s)
}

pub proof fn lemma_crc_feed_push(c: u16, s: Seq<u8>, b: u8)
    ensures
        crc_feed(c, s.push(b)) == crc_update_spec(crc_feed(c, s), b),
    decreases s.len(),
{
    assert(s.push(b).len() == s.len() + 1);
    assert(crc_feed(c, s.push(b)) == crc_feed(
        crc_update_spec(c, s.push(b)[0]),
        s.push(b).skip(1),
    ));
    if s.len() == 0 {
        assert(s.push(b)[0] == b);
        assert(s.push(b).skip(1) =~= Seq::<u8>::empty());
        assert(crc_feed(crc_update_spec(c, b), Seq::<u8>::empty()) == crc_update_spec(c, b));
        assert(crc_feed(c, s) == c);
    } else {
        assert(s.push(b)[0] == s[0]);
        assert(s.push(b).skip(1) =~= s.skip(1).push(b));
        lemma_crc_feed_push(crc_update_spec(c, s[0]), s.skip(1), b);
        assert(crc_feed(c, s) == crc_feed(crc_update_spec(c, s[0]), s.skip(1)));
    }
}

pub proof fn lemma_crc_feed_append(c: u16, s: Seq<u8>, t: Seq<u8>)
    ensures
        crc_feed(c, s + t) == crc_feed(crc_feed(c, s), t),
    decreases t.len(),
{
    if t.len() == 0 {
        assert(s + t =~= s);
    } else {
        let t0 = t.drop_last();
        let b = t.last();
        lemma_crc_feed_append(c, s, t0);
        assert(s + t =~= (s + t0).push(b));
        lemma_crc_feed_push(c, s + t0, b);
        lemma_crc_feed_push(crc_feed(c, s), t0, b);
        assert(t0.push(b) =~= t);
    }
}

/// Law: from a cleared register, mixing in the byte 255 yields 7920 (0x1EF0),
/// the protocol's reference vector.
pub proof fn lemma_crc_reference_vector()
    ensures
        crc_update_spec(0, 255) == 7920,
        crc_of(seq![255u8]) == 7920,
{
    assert(Seq::<u8>::empty().push(255) =~= seq![255u8]);
    lemma_crc_feed_push(0, Seq::empty(), 255);
    assert(0u16 ^ ((255u8 as u16) << 8) == 0xFF00u16) by (bit_vector);
    assert(crc_step(0xFF00u16) == 0xEE21u16) by (bit_vector);
    assert(crc_step(0xEE21u16) == 0xCC63u16) by (bit_vector);
    assert(crc_step(0xCC63u16) == 0x88E7u16) by (bit_vector);
    assert(crc_step(0x88E7u16) == 0x01EFu16) by (bit_vector);
    assert(crc_step(0x01EFu16) == 0x03DEu16) by (bit_vector);
    assert(crc_step(0x03DEu16) == 0x07BCu16) by (bit_vector);
    assert(crc_step(0x07BCu16) == 0x0F78u16) by (bit_vector);
    assert(crc_step(0x0F78u16) == 0x1EF0u16) by (bit_vector);
    assert(crc_steps(0xFF00u16, 1) == crc_step(crc_steps(0xFF00u16, 0)));
    assert(crc_steps(0xFF00u16, 2) == crc_step(crc_steps(0xFF00u16, 1)));
    assert(crc_steps(0xFF00u16, 3) == crc_step(crc_steps(0xFF00u16, 2)));
    assert(crc_steps(0xFF00u16, 4) == crc_step(crc_steps(0xFF00u16, 3)));
    assert(crc_steps(0xFF00u16, 5) == crc_step(crc_steps(0xFF00u16, 4)));
    assert(crc_steps(0xFF00u16, 6) == crc_step(crc_steps(0xFF00u16, 5)));
    assert(crc_steps(0xFF00u16, 7) == crc_step(crc_steps(0xFF00u16, 6)));
    assert(crc_steps(0xFF00u16, 8) == crc_step(crc_steps(0xFF00u16, 7)));
}

/// The running 16-bit checksum register. Its view is the register value,
/// which equals `crc_of` of exactly the bytes fed since the last clear.
pub struct Crc16 {
    crc: u16,
}

impl View for Crc16 {
    type V = u16;

    closed spec fn view(&self) -> u16 {
        self.crc
    }
}

impl Crc16 {
    pub fn new() -> (r: Self)
        ensures
            r@ == 0,
    {
        Crc16 { crc: 0 }
    }

    pub fn update(&mut self, data: u8)
        ensures
            final(self)@ == crc_update_spec(old(self)@, data),
    {
        self.crc = self.crc ^ ((data as u16) << 8);
        let ghost start: u16 = self.crc;
        let mut i: usize = 0;
        while i < 8
            invariant
                i <= 8,
                self.crc == crc_steps(start, i as nat),
            decreases 8 - i,
        {
            if self.crc & 0x8000 != 0 {
                self.crc = (self.crc << 1) ^ 0x1021;
            } else {
                self.crc = self.crc << 1;
            }
            i = i + 1;
            assert(crc_steps(start, i as nat) == crc_step(crc_steps(start, (i - 1) as nat)));
        }
    }

    /// Feed a run of bytes, in order.
    pub fn update_bytes(&mut self, bytes: &[u8])
        ensures
            final(self)@ == crc_feed(old(self)@, bytes@),
    {
        let mut i: usize = 0;
        while i < bytes.len()
            invariant
                i <= bytes@.len(),
                self@ == crc_feed(old(self)@, bytes@.take(i as int)),
            decreases bytes@.len() - i,
        {
            self.update(bytes[i]);
            i = i + 1;
            proof {
                lemma_crc_feed_push(old(self)@, bytes@.take(i - 1), bytes@[i - 1]);
                assert(bytes@.take(i as int) =~= bytes@.take(i - 1).push(bytes@[i - 1]));
            }
        }
        proof {
            assert(bytes@.take(bytes@.len() as int) =~= bytes@);
        }
    }

    pub fn clear(&mut self)
        ensures
            final(self)@ == 0,
    {
        self.crc = 0;
    }

    pub fn get(&self) -> (r: u16)
        ensures
            r == self@,
    {
        self.crc
    }
}

} // verus!
