//! Codeword-history-driven dither generator.
//!
//! Per channel a 32-bit shift register holds selected bits of the previous
//! blocks' LF, MLF and MHF codewords (HF is excluded: its low bit carries
//! the parity sync). Each block the register is stepped through a 32-bit
//! Fibonacci LFSR (taps 32, 22, 2, 1) four times, yielding one signed dither
//! per subband and a parity bit. Encoder and decoder compute the same
//! dither from the same codeword stream, so it is never transmitted.

use vstd::prelude::*;

verus! {

/// The 4-bit field that a block's codewords contribute to the history:
/// bit 0 = `LF[0]`, bit 1 = `LF[1]`, bit 2 = `MLF[1]`, bit 3 = `MHF[0]`
/// (bits of the two's-complement codewords).
pub open spec fn ingest_field(lf: i32, mlf: i32, mhf: i32) -> u32 {
    ((lf % 2) + 2 * ((lf / 2) % 2) + 4 * ((mlf / 2) % 2) + 8 * (mhf % 2)) as u32
}

/// The history after a block's codewords are mixed in: shifted left by 4
/// (dropping the top 4 bits) with the 4-bit field in the low bits.
pub open spec fn ingested(h: u32, lf: i32, mlf: i32, mhf: i32) -> u32 {
    ((h as int * 16) % 0x100000000 + ingest_field(lf, mlf, mhf) as int) as u32
}

/// Ingestion shifts the history up by four bits (dropping the top four) and
/// sets bit 0 to bit 0 of LF, bit 1 to bit 1 of LF, bit 2 to bit 1 of MLF
/// and bit 3 to bit 0 of MHF (two's-complement bits).
pub proof fn lemma_ingested_bits(h: u32, lf: i32, mlf: i32, mhf: i32)
    ensures
        ingested(h, lf, mlf, mhf) >> 4u32 == h & 0x0fff_ffffu32,
        ingested(h, lf, mlf, mhf) & 1u32 == (lf as u32) & 1u32,
        (ingested(h, lf, mlf, mhf) >> 1u32) & 1u32 == ((lf as u32) >> 1u32) & 1u32,
        (ingested(h, lf, mlf, mhf) >> 2u32) & 1u32 == ((mlf as u32) >> 1u32) & 1u32,
        (ingested(h, lf, mlf, mhf) >> 3u32) & 1u32 == (mhf as u32) & 1u32,
{
    let field: u32 = ((lf as u32) & 0x1) | (((lf as u32) >> 1) & 0x1) << 1 | (((mlf as u32) >> 1)
        & 0x1) << 2 | ((mhf as u32) & 0x1) << 3;
    assert(field == ((lf % 2) + 2 * ((lf / 2) % 2) + 4 * ((mlf / 2) % 2) + 8 * (mhf % 2))
        && field < 16) by (bit_vector)
        requires
            field == ((lf as u32) & 0x1) | (((lf as u32) >> 1) & 0x1) << 1 | (((mlf as u32) >> 1)
                & 0x1) << 2 | ((mhf as u32) & 0x1) << 3,
    ;
    let x = ingested(h, lf, mlf, mhf);
    assert(x == ((h as int * 16) % 0x100000000 + field as int) as u32);
    assert(x >> 4u32 == h & 0x0fff_ffffu32 && x & 1u32 == (lf as u32) & 1u32 && (x >> 1u32) & 1u32
        == ((lf as u32) >> 1u32) & 1u32 && (x >> 2u32) & 1u32 == ((mlf as u32) >> 1u32) & 1u32
        && (x >> 3u32) & 1u32 == (mhf as u32) & 1u32) by (bit_vector)
        requires
            x == ((h as int * 16) % 0x100000000 + field as int) as u32,
            field == ((lf as u32) & 0x1) | (((lf as u32) >> 1) & 0x1) << 1 | (((mlf as u32) >> 1)
                & 0x1) << 2 | ((mhf as u32) & 0x1) << 3,
    ;
}

/// One LFSR step: shift left by one and feed in the XOR of bits 31, 21, 1, 0.
pub open spec fn lfsr_step(s: u32) -> u32 {
    (s << 1u32) | (((s >> 31u32) ^ (s >> 21u32) ^ (s >> 1u32) ^ s) & 1u32)
}

/// `k` LFSR steps.
pub open spec fn lfsr_steps(s: u32, k: nat) -> u32
    decreases k,
{
    if k == 0 {
        s
    } else {
        lfsr_step(lfsr_steps(s, (k - 1) as nat))
    }
}

/// The signed dither read from a register state: its upper 16 bits,
/// sign-extended.
pub open spec fn dither_value(s: u32) -> i32 {
    (s as i32) >> 16i32
}

/// The abstract state of a dither generator.
pub struct DitherView {
    pub history: u32,
    pub parity: u8,
}

/// The four per-subband dither values of a block started from `h`.
#[verifier::opaque]
pub open spec fn block_dither(h: u32) -> [i32; 4] {
    [
        dither_value(lfsr_steps(h, 1)),
        dither_value(lfsr_steps(h, 2)),
        dither_value(lfsr_steps(h, 3)),
        dither_value(lfsr_steps(h, 4)),
    ]
}

/// Subband `i`'s dither is the upper half of the register, sign-extended,
/// after `i + 1` LFSR steps; so stepping the history once shifts the
/// dithers down by one subband.
pub proof fn lemma_block_dither_order(h: u32)
    ensures
        forall|i: int| 0 <= i < 4 ==> #[trigger] block_dither(h)[i] == ((lfsr_steps(h, (i + 1) as nat) as i32) >> 16i32),
        forall|i: int| 0 <= i < 3 ==> #[trigger] block_dither(lfsr_step(h))[i] == block_dither(h)[i + 1],
{
    reveal(block_dither);
    assert forall|i: int| 0 <= i < 3 implies #[trigger] block_dither(lfsr_step(h))[i] == block_dither(h)[i + 1] by {
        lemma_lfsr_steps_shift(h, (i + 1) as nat);
    }
}

/// Stepping first and then `k` times is stepping `k + 1` times.
proof fn lemma_lfsr_steps_shift(h: u32, k: nat)
    ensures
        lfsr_steps(lfsr_step(h), k) == lfsr_steps(h, k + 1),
    decreases k,
{
    assert(lfsr_steps(h, k + 1) == lfsr_step(lfsr_steps(h, k)));
    if k > 0 {
        lemma_lfsr_steps_shift(h, (k - 1) as nat);
        assert(lfsr_steps(lfsr_step(h), k) == lfsr_step(lfsr_steps(lfsr_step(h), (k - 1) as nat)));
    } else {
        assert(lfsr_steps(h, 0) == h);
        assert(lfsr_steps(lfsr_step(h), 0) == lfsr_step(h));
    }
}

/// The parity bit of a block started from `h`: bit 0 of the stepped register.
pub open spec fn block_parity_bit(h: u32) -> u8 {
    (lfsr_steps(h, 4) & 1u32) as u8
}

#[derive(Clone, Debug)]
pub struct DitherGen {
    /// 32-bit shift register holding the recent codeword history.
    history: u32,
    /// Last parity bit emitted.
    parity: u8,
}

impl View for DitherGen {
    type V = DitherView;

    closed spec fn view(&self) -> DitherView {
        DitherView { history: self.history, parity: self.parity }
    }
}

impl DitherGen {
    pub fn new() -> (g: DitherGen)
        ensures
            g@ == (DitherView { history: 0, parity: 0 }),
    {
        DitherGen { history: 0, parity: 0 }
    }

    /// The codeword-history register.
    pub fn history(&self) -> (h: u32)
        ensures
            h == self@.history,
    {
        self.history
    }

    /// Mix a block's codewords (LF, MLF, MHF; HF is excluded) into the
    /// history: shift the register left by 4 and OR in the 4-bit field.
    pub fn ingest(&mut self, lf: i32, mlf: i32, mhf: i32)
        ensures
            final(self)@.history == ingested(old(self)@.history, lf, mlf, mhf),
            final(self)@.parity == old(self)@.parity,
    {
        let field: u32 = ((lf as u32) & 0x1) | (((lf as u32) >> 1) & 0x1) << 1 | (((mlf as u32)
            >> 1) & 0x1) << 2 | ((mhf as u32) & 0x1) << 3;
        let h = self.history;
        proof {
            assert(field == ((lf % 2) + 2 * ((lf / 2) % 2) + 4 * ((mlf / 2) % 2) + 8 * (mhf % 2)))
                by (bit_vector)
                requires
                    field == ((lf as u32) & 0x1) | (((lf as u32) >> 1) & 0x1) << 1 | (((mlf as u32)
                        >> 1) & 0x1) << 2 | ((mhf as u32) & 0x1) << 3,
            ;
            assert(((h << 4u32) | field) == (h * 16) % 0x100000000 + field) by (bit_vector)
                requires
                    field < 16,
            ;
        }
        self.history = (h << 4u32) | field;
    }

    /// Produce the block's four per-subband dither values and its parity
    /// bit, advancing the register by four LFSR steps.
    pub fn next_block(&mut self) -> (r: ([i32; 4], u8))
        ensures
            r.0 == block_dither(old(self)@.history),
            forall|i: int| 0 <= i < 4 ==> #[trigger] r.0[i] == ((lfsr_steps(old(self)@.history, (i + 1) as nat) as i32) >> 16i32),
            r.1 == block_parity_bit(old(self)@.history),
            final(self)@.history == lfsr_steps(old(self)@.history, 4),
            final(self)@.parity == r.1,
    {
        let ghost h0 = self.history;
        let mut state = self.history;
        let mut out = [0i32; 4];
        let mut k: usize = 0;
        while k < 4
            invariant
                k <= 4,
                state == lfsr_steps(h0, k as nat),
                forall|j: int| 0 <= j < k ==> out[j] == dither_value(lfsr_steps(h0, (j + 1) as nat)),
            decreases 4 - k,
        {
            let bit = ((state >> 31u32) ^ (state >> 21u32) ^ (state >> 1u32) ^ state) & 1;
            state = (state << 1u32) | bit;
            out[k] = (state as i32) >> 16i32;
            k = k + 1;
        }
        self.history = state;
        self.parity = (state & 1) as u8;
        proof {
            reveal(block_dither);
            assert(out =~= block_dither(h0));
        }
        (out, self.parity)
    }

    /// The last parity bit emitted.
    pub fn parity(&self) -> (p: u8)
        ensures
            p == self@.parity,
    {
        self.parity
    }
}

impl Default for DitherGen {
    fn default() -> (g: DitherGen)
        ensures
            g@ == (DitherView { history: 0, parity: 0 }),
    {
        DitherGen::new()
    }
}

} // verus!
