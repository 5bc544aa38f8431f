//! Per-subband, per-variant ADPCM tables and the variant / subband layout.
//!
//! The quantizer-interval, dither and factor-select tables are smooth
//! placeholder ladders of the sizes the bitstream layout fixes
//! (1 + 2^(bits-1) entries per subband); encoder and decoder share them.

use vstd::prelude::*;
use vstd::arithmetic::power2::{pow2, lemma_pow2_strictly_increases, lemma2_to64};
use vstd::bits::{lemma_usize_shl_is_mul, lemma_usize_pow2_no_overflow};

verus! {

/// Variant tag: aptX classic (16 bits per channel codeword) or aptX HD (24 bits).
#[derive(Copy, Clone, Debug, PartialEq, Eq, Structural)]
pub enum Variant {
    Classic,
    Hd,
}

impl Variant {
    pub open spec fn spec_block_bytes(self) -> usize {
        match self {
            Variant::Classic => 4,
            Variant::Hd => 6,
        }
    }

    pub open spec fn spec_bits_per_channel(self) -> usize {
        match self {
            Variant::Classic => 16,
            Variant::Hd => 24,
        }
    }

    /// Block size on the wire (one stereo block).
    #[verifier::when_used_as_spec(spec_block_bytes)]
    pub fn block_bytes(self) -> (r: usize)
        ensures
            r == self.spec_block_bytes(),
    {
        match self {
            Variant::Classic => 4,
            Variant::Hd => 6,
        }
    }

    /// Bits per channel per block.
    #[verifier::when_used_as_spec(spec_bits_per_channel)]
    pub fn bits_per_channel(self) -> (r: usize)
        ensures
            r == self.spec_bits_per_channel(),
    {
        match self {
            Variant::Classic => 16,
            Variant::Hd => 24,
        }
    }
}

/// Subband index: LF, MLF, MHF, HF (0/1/2/3).
#[derive(Copy, Clone, Debug, PartialEq, Eq, Structural)]
pub enum Subband {
    Lf,
    Mlf,
    Mhf,
    Hf,
}

/// The subband at position `i` of `[LF, MLF, MHF, HF]`; every index past 2 is HF.
pub open spec fn subband_at(i: int) -> Subband {
    if i == 0 {
        Subband::Lf
    } else if i == 1 {
        Subband::Mlf
    } else if i == 2 {
        Subband::Mhf
    } else {
        Subband::Hf
    }
}

impl Subband {
    pub open spec fn spec_bits(self, variant: Variant) -> usize {
        match (variant, self) {
            (Variant::Classic, Subband::Lf) => 7,
            (Variant::Classic, Subband::Mlf) => 4,
            (Variant::Classic, Subband::Mhf) => 2,
            (Variant::Classic, Subband::Hf) => 3,
            (Variant::Hd, Subband::Lf) => 9,
            (Variant::Hd, Subband::Mlf) => 6,
            (Variant::Hd, Subband::Mhf) => 4,
            (Variant::Hd, Subband::Hf) => 5,
        }
    }

    pub open spec fn spec_prediction_order(self) -> usize {
        match self {
            Subband::Lf => 24,
            Subband::Mlf => 12,
            Subband::Mhf => 6,
            Subband::Hf => 12,
        }
    }

    pub open spec fn spec_factor_max(self) -> i32 {
        255
    }

    /// Position of this subband in `[LF, MLF, MHF, HF]`.
    pub open spec fn index(self) -> int {
        match self {
            Subband::Lf => 0,
            Subband::Mlf => 1,
            Subband::Mhf => 2,
            Subband::Hf => 3,
        }
    }

    /// The subband at position `i`; indices past 2 map to HF.
    pub fn from_index(i: usize) -> (r: Subband)
        ensures
            r == subband_at(i as int),
    {
        match i {
            0 => Subband::Lf,
            1 => Subband::Mlf,
            2 => Subband::Mhf,
            _ => Subband::Hf,
        }
    }

    /// Bits used for this subband's codeword.
    #[verifier::when_used_as_spec(spec_bits)]
    pub fn bits(self, variant: Variant) -> (r: usize)
        ensures
            r == self.spec_bits(variant),
    {
        match (variant, self) {
            (Variant::Classic, Subband::Lf) => 7,
            (Variant::Classic, Subband::Mlf) => 4,
            (Variant::Classic, Subband::Mhf) => 2,
            (Variant::Classic, Subband::Hf) => 3,
            (Variant::Hd, Subband::Lf) => 9,
            (Variant::Hd, Subband::Mlf) => 6,
            (Variant::Hd, Subband::Mhf) => 4,
            (Variant::Hd, Subband::Hf) => 5,
        }
    }

    /// Prediction order N of the long-term predictor.
    #[verifier::when_used_as_spec(spec_prediction_order)]
    pub fn prediction_order(self) -> (r: usize)
        ensures
            r == self.spec_prediction_order(),
    {
        match self {
            Subband::Lf => 24,
            Subband::Mlf => 12,
            Subband::Mhf => 6,
            Subband::Hf => 12,
        }
    }

    /// Cap of `factor_select`: with the step index taken from bits 3..8 of
    /// `factor_select`, a cap of 255 lets the adaptation reach every entry of
    /// `QUANTIZATION_FACTORS`.
    #[verifier::when_used_as_spec(spec_factor_max)]
    pub fn factor_max(self) -> (r: i32)
        ensures
            r == self.spec_factor_max(),
    {
        match self {
            Subband::Lf => 255,
            Subband::Mlf => 255,
            Subband::Mhf => 255,
            Subband::Hf => 255,
        }
    }
}

/// 32-entry quantization-factor ladder: geometric, base 2^(1/4), starting at
/// 2048 (`t[i]` is 2048 × 2^(i/4) rounded), so it doubles every 4 entries.
pub const QUANTIZATION_FACTORS: [i32; 32] = [
    2048, 2435, 2896, 3444, 4096, 4871, 5793, 6889, 8192, 9742, 11585, 13777, 16384, 19484,
    23170, 27554, 32768, 38968, 46341, 55109, 65536, 77936, 92682, 110218, 131072, 155872,
    185364, 220436, 262144, 311744, 370728, 440872,
];

/// Number of entries of a table for a signed codeword of `bits` bits: 1 + 2^(bits-1).
pub open spec fn table_len(bits: nat) -> nat {
    pow2((bits - 1) as nat) + 1
}

/// Quantizer-interval thresholds: entry `i` is `i²`.
pub open spec fn interval_table(bits: nat) -> Seq<i32> {
    Seq::new(table_len(bits), |i: int| (i * i) as i32)
}

/// Dither factors: `3i` for even `i`, `-3i` for odd `i`.
pub open spec fn dither_factor_table(bits: nat) -> Seq<i32> {
    Seq::new(table_len(bits), |i: int| if i % 2 == 0 { (3 * i) as i32 } else { (-3 * i) as i32 })
}

/// Factor-select offsets: a linear ramp from -2 at the smallest interval,
/// rising by one per entry (`i - 2`).
pub open spec fn factor_select_offset_table(bits: nat) -> Seq<i32> {
    Seq::new(table_len(bits), |i: int| (i - 2) as i32)
}

/// The quantization-factor ladder is strictly increasing.
pub proof fn lemma_quantization_factors_increasing(i: int, j: int)
    requires
        0 <= i < j < 32,
    ensures
        QUANTIZATION_FACTORS@[i] < QUANTIZATION_FACTORS@[j],
    decreases j - i,
{
    let q = QUANTIZATION_FACTORS@;
    assert(q =~= seq![
        2048i32, 2435, 2896, 3444, 4096, 4871, 5793, 6889, 8192, 9742, 11585, 13777, 16384,
        19484, 23170, 27554, 32768, 38968, 46341, 55109, 65536, 77936, 92682, 110218, 131072,
        155872, 185364, 220436, 262144, 311744, 370728, 440872,
    ]);
    if j - i > 1 {
        lemma_quantization_factors_increasing(i, j - 1);
        lemma_quantization_factors_increasing(j - 1, j);
    } else {
        assert(i == 0 || i == 1 || i == 2 || i == 3 || i == 4 || i == 5 || i == 6 || i == 7
            || i == 8 || i == 9 || i == 10 || i == 11 || i == 12 || i == 13 || i == 14 || i == 15
            || i == 16 || i == 17 || i == 18 || i == 19 || i == 20 || i == 21 || i == 22 || i
            == 23 || i == 24 || i == 25 || i == 26 || i == 27 || i == 28 || i == 29 || i == 30);
    }
}

/// The quantizer-interval thresholds of every subband (codewords of at most
/// 9 bits) are strictly increasing.
pub proof fn lemma_intervals_increasing(bits: nat, i: int, j: int)
    requires
        1 <= bits <= 9,
        0 <= i < j < table_len(bits),
    ensures
        interval_table(bits)[i] < interval_table(bits)[j],
{
    lemma2_to64();
    if bits < 9 {
        lemma_pow2_strictly_increases((bits - 1) as nat, 8);
    }
    assert(0 <= i * i < j * j <= 65536) by (nonlinear_arith)
        requires
            0 <= i < j <= 256,
    ;
}

/// `(1 << (bits - 1)) + 1` computed in `usize`, for the table builders.
fn table_size(bits: usize) -> (n: usize)
    requires
        1 <= bits <= 32,
    ensures
        n == table_len(bits as nat),
        n <= pow2(31) + 1,
{
    proof {
        lemma_usize_pow2_no_overflow((bits - 1) as nat);
        lemma_usize_shl_is_mul(1, (bits - 1) as usize);
        if bits - 1 < 31 {
            lemma_pow2_strictly_increases((bits - 1) as nat, 31);
        }
    }
    (1usize << (bits - 1)) + 1
}

/// Build the `1 + 2^(bits-1)`-entry quantizer-interval table (entry `i` is `i²`).
pub fn make_interval_table(bits: usize) -> (t: Vec<i32>)
    requires
        1 <= bits <= 32,
    ensures
        t@ == interval_table(bits as nat),
{
    let n = table_size(bits);
    proof {
        lemma2_to64();
    }
    let mut t: Vec<i32> = Vec::with_capacity(n);
    let mut i: usize = 0;
    while i < n
        invariant
            n == table_len(bits as nat),
            n <= pow2(31) + 1,
            pow2(31) == 0x80000000,
            i <= n,
            t@ =~= Seq::new(i as nat, |j: int| (j * j) as i32),
        decreases n - i,
    {
        let ii = i as i64;
        proof {
            assert(0 <= ii * ii <= 0x80000000 * 0x80000000) by (nonlinear_arith)
                requires
                    0 <= ii <= 0x80000000,
            ;
        }
        let v = ii * ii;
        t.push(v as i32);
        i = i + 1;
    }
    t
}

/// Build the per-interval dither factor table (alternating `±3i`).
pub fn make_dither_factors(bits: usize) -> (t: Vec<i32>)
    requires
        1 <= bits <= 30,
    ensures
        t@ == dither_factor_table(bits as nat),
{
    let n = table_size(bits);
    proof {
        lemma2_to64();
        if bits - 1 < 29 {
            lemma_pow2_strictly_increases((bits - 1) as nat, 29);
        }
    }
    let mut t: Vec<i32> = Vec::with_capacity(n);
    let mut i: usize = 0;
    while i < n
        invariant
            n == table_len(bits as nat),
            n <= 0x20000001,
            i <= n,
            t@ =~= Seq::new(
                i as nat,
                |j: int| if j % 2 == 0 { (3 * j) as i32 } else { (-3 * j) as i32 },
            ),
        decreases n - i,
    {
        let mag = (i as i32) * 3;
        if i % 2 == 0 {
            t.push(mag);
        } else {
            t.push(-mag);
        }
        i = i + 1;
    }
    t
}

/// Build the factor-select offset table (the ramp `i - 2`).
pub fn make_factor_select_offsets(bits: usize) -> (t: Vec<i32>)
    requires
        1 <= bits <= 31,
    ensures
        t@ == factor_select_offset_table(bits as nat),
{
    let n = table_size(bits);
    proof {
        lemma2_to64();
        if bits - 1 < 30 {
            lemma_pow2_strictly_increases((bits - 1) as nat, 30);
        }
    }
    let mut t: Vec<i32> = Vec::with_capacity(n);
    let mut i: usize = 0;
    while i < n
        invariant
            n == table_len(bits as nat),
            n <= 0x40000001,
            i <= n,
            t@ =~= Seq::new(i as nat, |j: int| (j - 2) as i32),
        decreases n - i,
    {
        t.push((i as i32) - 2);
        i = i + 1;
    }
    t
}

/// Bundle of per-subband tables for a given (variant, subband) pair.
#[derive(Clone, Debug)]
pub struct SubbandTables {
    pub intervals: Vec<i32>,
    pub dither_factors: Vec<i32>,
    pub factor_select_offsets: Vec<i32>,
}

impl SubbandTables {
    /// The three tables of a subband whose codeword has `bits` bits.
    pub open spec fn matches(&self, bits: nat) -> bool {
        &&& self.intervals@ == interval_table(bits)
        &&& self.dither_factors@ == dither_factor_table(bits)
        &&& self.factor_select_offsets@ == factor_select_offset_table(bits)
    }

    pub fn new(variant: Variant, sb: Subband) -> (t: SubbandTables)
        ensures
            t.matches(sb.spec_bits(variant) as nat),
    {
        let bits = sb.bits(variant);
        SubbandTables {
            intervals: make_interval_table(bits),
            dither_factors: make_dither_factors(bits),
            factor_select_offsets: make_factor_select_offsets(bits),
        }
    }
}

} // verus!
