//! Per-(channel, subband) ADPCM state machine.
//!
//! A backward-adaptive quantizer whose step size is driven by a leaky
//! `factor_select` integrator, and a two-piece predictor: a short-term IIR
//! term over the previous reconstructed sample (two weights) and a
//! long-term term of order N over the reconstructed-difference history
//! (sign-LMS weights). Encoder and decoder run the same arithmetic on the
//! same codewords, which keeps them in lock-step.

use vstd::prelude::*;
use vstd::arithmetic::power2::{pow2, lemma2_to64};
use vstd::arithmetic::mul::lemma_mul_inequality;
use vstd::bits::{lemma_u64_shl_is_mul, lemma_u64_shr_is_div, lemma_u64_pow2_no_overflow};
use crate::tables::{
    Subband, SubbandTables, Variant, QUANTIZATION_FACTORS, interval_table, dither_factor_table,
    factor_select_offset_table, table_len,
};

verus! {

/// Leak coefficient of the `factor_select` integrator (32620 / 32768).
const FACTOR_SELECT_LEAK: i64 = 32620;

// ---------------------------------------------------------------------------
// Integer helpers
// ---------------------------------------------------------------------------

/// `v` clamped to `[lo, hi]`.
pub open spec fn clamp_int(v: int, lo: int, hi: int) -> int {
    if v < lo {
        lo
    } else if v > hi {
        hi
    } else {
        v
    }
}

/// Sign of `v`: -1, 0 or 1.
pub open spec fn sign_int(v: int) -> int {
    if v > 0 {
        1
    } else if v < 0 {
        -1
    } else {
        0
    }
}

/// Absolute value.
pub open spec fn abs_int(v: int) -> int {
    if v < 0 {
        -v
    } else {
        v
    }
}

/// The smaller of two integers.
pub open spec fn min_int(a: int, b: int) -> int {
    if a < b {
        a
    } else {
        b
    }
}

/// 24-bit signed clip.
pub open spec fn clip24_int(v: int) -> int {
    clamp_int(v, -0x800000, 0x7fffff)
}

fn clamp_i64(v: i64, lo: i64, hi: i64) -> (r: i64)
    requires
        lo <= hi,
    ensures
        r == clamp_int(v as int, lo as int, hi as int),
{
    if v < lo {
        lo
    } else if v > hi {
        hi
    } else {
        v
    }
}

fn sign_i32(v: i32) -> (r: i64)
    ensures
        r == sign_int(v as int),
{
    if v > 0 {
        1
    } else if v < 0 {
        -1
    } else {
        0
    }
}

fn unsigned_abs_i32(v: i32) -> (r: u32)
    ensures
        r as int == abs_int(v as int),
{
    if v < 0 {
        (-(v as i64)) as u32
    } else {
        v as u32
    }
}

fn unsigned_abs_i64(v: i64) -> (r: u64)
    requires
        v > i64::MIN,
    ensures
        r as int == abs_int(v as int),
{
    if v < 0 {
        (-v) as u64
    } else {
        v as u64
    }
}

/// 24-bit signed clip.
fn clip24(v: i32) -> (r: i32)
    ensures
        r == clip24_int(v as int),
{
    if v < -0x800000 {
        -0x800000
    } else if v > 0x7fffff {
        0x7fffff
    } else {
        v
    }
}

proof fn lemma_shr_i64(x: i64)
    requires
        -0x1000000000000 <= x <= 0x1000000000000,
    ensures
        x >> 8u64 == x / 256,
        x >> 15u64 == x / 32768,
        x >> 19u64 == x / 524288,
        x >> 22u64 == x / 4194304,
        x >> 23u64 == x / 8388608,
{
    assert(x >> 8u64 == x / 256 && x >> 15u64 == x / 32768 && x >> 19u64 == x / 524288
        && x >> 22u64 == x / 4194304 && x >> 23u64 == x / 8388608) by (bit_vector)
        requires
            -0x1000000000000 <= x <= 0x1000000000000,
    ;
}

proof fn lemma_shr_i64_wide(x: i64)
    requires
        -0x0800000000000000 <= x <= 0x0800000000000000,
    ensures
        x >> 22u64 == x / 4194304,
{
    assert(x >> 22u64 == x / 4194304) by (bit_vector)
        requires
            -0x0800000000000000 <= x <= 0x0800000000000000,
    ;
}

proof fn lemma_quantization_factors_range()
    ensures
        forall|k: int| 0 <= k < 32 ==> 2048 <= #[trigger] QUANTIZATION_FACTORS@[k] <= 440872,
{
    assert(QUANTIZATION_FACTORS@ =~= seq![
        2048i32, 2435, 2896, 3444, 4096, 4871, 5793, 6889, 8192, 9742, 11585, 13777, 16384,
        19484, 23170, 27554, 32768, 38968, 46341, 55109, 65536, 77936, 92682, 110218, 131072,
        155872, 185364, 220436, 262144, 311744, 370728, 440872,
    ]);
}

// ---------------------------------------------------------------------------
// Quantization factor
// ---------------------------------------------------------------------------

/// Quantization factor for a `factor_select` under a cap `factor_max`:
/// with `fs` the clamped index, the step index is `(fs mod 256) / 8`, the
/// shift `(factor_max - fs) / 256`, and the factor
/// `(QUANTIZATION_FACTORS[step] * 2^11) / 2^shift`.
pub open spec fn spec_quantization_factor(factor_select: int, factor_max: int) -> int {
    let fs = clamp_int(factor_select, 0, factor_max);
    let step = (fs % 256) / 8;
    let shift = (factor_max - fs) / 256;
    (QUANTIZATION_FACTORS@[step] * 2048) / (pow2(shift as nat) as int)
}

/// Compute the quantization factor from `factor_select`:
/// `step_idx = (fs & 0xFF) >> 3`, `shift = (factor_max - fs) >> 8`,
/// `qf = (QUANTIZATION_FACTORS[step_idx] << 11) >> shift`.
pub fn compute_quantization_factor(factor_select: i32, factor_max: i32) -> (qf: i32)
    requires
        0 <= factor_max,
        factor_max - clamp_int(factor_select as int, 0, factor_max as int) < 16384,
    ensures
        qf as int == spec_quantization_factor(factor_select as int, factor_max as int),
        factor_max - clamp_int(factor_select as int, 0, factor_max as int) < 256 ==> 4194304 <= qf
            <= 902905856,
{
    let fs = if factor_select < 0 {
        0
    } else if factor_select > factor_max {
        factor_max
    } else {
        factor_select
    };
    let step_idx = ((fs & 0xFF) >> 3) as usize;
    let span = factor_max - fs;
    let shift = (span >> 8) as u32;
    proof {
        assert(((fs & 0xFF) >> 3) == (fs % 256) / 8) by (bit_vector)
            requires
                0 <= fs,
        ;
        assert((span >> 8) == span / 256) by (bit_vector)
            requires
                0 <= span,
        ;
        lemma_quantization_factors_range();
        lemma2_to64();
    }
    let base = (QUANTIZATION_FACTORS[step_idx] as u64) << 11;
    proof {
        lemma_u64_shl_is_mul(QUANTIZATION_FACTORS@[step_idx as int] as u64, 11);
        lemma_u64_shr_is_div(base, shift as u64);
        lemma_u64_pow2_no_overflow(shift as nat);
        assert(base as int / (pow2(shift as nat) as int) <= base) by {
            vstd::arithmetic::div_mod::lemma_div_is_ordered_by_denominator(
                base as int,
                1,
                pow2(shift as nat) as int,
            );
        }
    }
    let shifted = base >> (shift as u64);
    shifted as i32
}

/// Under the cap 255 the quantization factor is `QUANTIZATION_FACTORS[fs / 8] * 2^11`.
proof fn lemma_quantization_factor_range(factor_select: int)
    requires
        0 <= factor_select <= 255,
    ensures
        4194304 <= spec_quantization_factor(factor_select, 255) <= 902905856,
{
    lemma_quantization_factors_range();
    lemma2_to64();
    let step = (factor_select % 256) / 8;
    assert(0 <= step < 32);
    assert((255 - factor_select) / 256 == 0);
    let q = QUANTIZATION_FACTORS@[step];
    assert(2048 <= q <= 440872);
    assert(pow2(0) == 1);
    assert(clamp_int(factor_select, 0, 255) == factor_select);
    assert(spec_quantization_factor(factor_select, 255) == (q * 2048) / (pow2(0) as int));
}

// ---------------------------------------------------------------------------
// Abstract state
// ---------------------------------------------------------------------------

/// The mathematical state of one subband's ADPCM: everything but the
/// tables, which are fixed by the variant and the subband.
pub struct SubbandView {
    pub variant: Variant,
    pub subband: Subband,
    pub factor_select: i32,
    pub quantization_factor: i32,
    pub reconstructed_difference: i32,
    pub s_weight0: i32,
    pub s_weight1: i32,
    pub d_weight: Seq<i32>,
    pub reconstructed_differences: Seq<i32>,
    pub previous_reconstructed_sample: i32,
}

/// `sum_{i < k} dw[i] * rd[i]`.
pub open spec fn dot(dw: Seq<i32>, rd: Seq<i32>, k: int) -> int
    decreases k,
{
    if k <= 0 {
        0
    } else {
        dot(dw, rd, k - 1) + dw[k - 1] * rd[k - 1]
    }
}

/// Index of the largest threshold among `iv[1..k]` with `iv[i] * qf <= sd`,
/// or 0 when there is none.
pub open spec fn threshold_index(iv: Seq<i32>, qf: int, sd: int, k: int) -> int
    decreases k,
{
    if k <= 1 {
        0
    } else if iv[k - 1] * qf <= sd {
        k - 1
    } else {
        threshold_index(iv, qf, sd, k - 1)
    }
}

/// One leaky sign-LMS step of a long-term weight towards `target`.
pub open spec fn d_weight_step(w: int, target: int) -> int {
    clamp_int(w - (w - target) / 256, -0x800000, 0x7fffff)
}

/// The rounded leaky `factor_select` integrator step, before clamping.
pub open spec fn factor_select_step(factor_select: int, offset: int) -> int {
    (32620 * factor_select + offset * 32768 + 16384) / 32768
}

impl SubbandView {
    pub open spec fn bits(self) -> nat {
        self.subband.spec_bits(self.variant) as nat
    }

    pub open spec fn order(self) -> int {
        self.subband.spec_prediction_order() as int
    }

    /// Largest codeword magnitude: `2^(bits-1) - 1`.
    pub open spec fn max_magnitude(self) -> int {
        pow2((self.bits() - 1) as nat) - 1
    }

    /// Bounds that every reachable state keeps.
    pub open spec fn inv(self) -> bool {
        &&& 0 <= self.factor_select <= self.subband.spec_factor_max()
        &&& self.quantization_factor as int == spec_quantization_factor(
            self.factor_select as int,
            self.subband.spec_factor_max() as int,
        )
        &&& -0x300000 <= self.s_weight0 <= 0x300000
        &&& -0x3C0000 <= self.s_weight1 <= 0x3C0000
        &&& self.d_weight.len() == self.order()
        &&& forall|i: int|
            0 <= i < self.d_weight.len() ==> -0x800000 <= #[trigger] self.d_weight[i] <= 0x7fffff
        &&& self.reconstructed_differences.len() == 2 * self.order()
    }

    /// The predicted sample: the clipped sum of the short-term term
    /// `((s0 + s1) * prev) / 2^22` and the long-term term
    /// `(sum_i d_weight[i] * rd[i]) / 2^22`, truncated to 32 bits.
    pub open spec fn predicted(self) -> i32 {
        let s_term = ((self.s_weight0 + self.s_weight1) * self.previous_reconstructed_sample)
            / 4194304;
        let d_term = dot(self.d_weight, self.reconstructed_differences, self.order()) / 4194304;
        clip24_int(((s_term + d_term) as i32) as int) as i32
    }

    /// The quantization factor as the quantizer uses it (at least 1).
    pub open spec fn effective_factor(self) -> int {
        if self.quantization_factor < 1 {
            1
        } else {
            self.quantization_factor as int
        }
    }

    /// Quantize `diff`: the magnitude index is the largest interval whose
    /// scaled threshold `intervals[i] * qf` does not exceed `|diff| * 2^19`,
    /// capped at the codeword's largest magnitude; the sign is that of
    /// `diff`. The second value is the distance `|(|diff| * 2^19) -
    /// intervals[idx] * qf|`, truncated to 32 bits.
    pub open spec fn quantized(self, diff: i32) -> (i32, i32) {
        let qf = self.effective_factor();
        let iv = interval_table(self.bits());
        let sd = abs_int(diff as int) * 524288;
        let k = threshold_index(iv, qf, sd, iv.len() as int);
        let idx = min_int(k, self.max_magnitude());
        let cw = if diff < 0 {
            -idx
        } else {
            idx
        };
        let err = abs_int(sd - iv[idx] * qf);
        (cw as i32, err as i32)
    }

    /// Reconstructed difference of codeword `cw` under `dither`:
    /// `(qf * (interval + (|dither| * dither_factor) / 2^23)) / 2^19`,
    /// with the interval of magnitude 0 taken as 0, and the sign of `cw`.
    pub open spec fn inverse_quantized(self, cw: i32, dither: i32) -> i32 {
        let qf = self.effective_factor();
        let iv = interval_table(self.bits());
        let df = dither_factor_table(self.bits());
        let idx = min_int(abs_int(cw as int), iv.len() - 1);
        let interval_mag = if idx == 0 {
            0
        } else {
            iv[idx] as int
        };
        let blend = (abs_int(dither as int) * df[idx]) / 8388608;
        let magnitude = (qf * (interval_mag + blend)) / 524288;
        (if cw < 0 {
            -magnitude
        } else {
            magnitude
        }) as i32
    }

    /// Sign agreement of the new reconstructed sample with the previous one.
    pub open spec fn sample_sign(self, reconstructed_sample: i32) -> int {
        if reconstructed_sample != 0 && sign_int(reconstructed_sample as int) == sign_int(
            self.previous_reconstructed_sample as int,
        ) {
            1
        } else if reconstructed_sample != 0 {
            -1
        } else {
            0
        }
    }

    /// The state after codeword `cw`, reconstructed difference `rd` and
    /// reconstructed sample `rs`.
    pub open spec fn updated(self, cw: i32, rd: i32, rs: i32) -> SubbandView {
        let fo = factor_select_offset_table(self.bits());
        let fmax = self.subband.spec_factor_max() as int;
        let oidx = min_int(abs_int(cw as int), fo.len() - 1);
        let fs = clamp_int(factor_select_step(self.factor_select as int, fo[oidx] as int), 0, fmax);
        let rds = self.reconstructed_differences;
        let new_rds = seq![rd].add(rds.subrange(0, rds.len() - 1));
        let d_weight = Seq::new(
            self.d_weight.len(),
            |i: int|
                d_weight_step(
                    self.d_weight[i] as int,
                    sign_int(rd as int) * sign_int(rds[i] as int) * 0x800000,
                ) as i32,
        );
        let ss = self.sample_sign(rs);
        let t0 = ss * 0x800000;
        let s0 = self.s_weight0 as int;
        let s0_new = clamp_int(s0 - ((s0 - t0) * 2) / 256, -0x300000, 0x300000);
        let t1 = ss * 0xC00000;
        let s1 = self.s_weight1 as int;
        let cap = if 0x3C0000 - abs_int(s0_new) > 0 {
            0x3C0000 - abs_int(s0_new)
        } else {
            0
        };
        let s1_new = clamp_int(s1 - (s1 - t1) / 256, -cap, cap);
        SubbandView {
            variant: self.variant,
            subband: self.subband,
            factor_select: fs as i32,
            quantization_factor: spec_quantization_factor(fs, fmax) as i32,
            reconstructed_difference: rd,
            s_weight0: s0_new as i32,
            s_weight1: s1_new as i32,
            d_weight,
            reconstructed_differences: new_rds,
            previous_reconstructed_sample: rs,
        }
    }
}

/// The state of a fresh subband.
pub open spec fn initial_subband_view(variant: Variant, subband: Subband) -> SubbandView {
    let n = subband.spec_prediction_order() as nat;
    SubbandView {
        variant,
        subband,
        factor_select: 0,
        quantization_factor: spec_quantization_factor(0, subband.spec_factor_max() as int) as i32,
        reconstructed_difference: 0,
        s_weight0: 0,
        s_weight1: 0,
        d_weight: Seq::new(n, |i: int| 0i32),
        reconstructed_differences: Seq::new(2 * n, |i: int| 0i32),
        previous_reconstructed_sample: 0,
    }
}

proof fn lemma_dot_bounded(dw: Seq<i32>, rd: Seq<i32>, k: int)
    requires
        0 <= k <= dw.len(),
        k <= rd.len(),
        forall|i: int| 0 <= i < dw.len() ==> -0x800000 <= #[trigger] dw[i] <= 0x7fffff,
    ensures
        -k * 0x40000000000000 <= dot(dw, rd, k) <= k * 0x40000000000000,
    decreases k,
{
    if k > 0 {
        lemma_dot_bounded(dw, rd, k - 1);
        let a = dw[k - 1] as int;
        let b = rd[k - 1] as int;
        assert(-0x40000000000000 <= a * b <= 0x40000000000000) by (nonlinear_arith)
            requires
                -0x800000 <= a <= 0x7fffff,
                -0x80000000 <= b <= 0x7fffffff,
        ;
    }
}

proof fn lemma_threshold_index(iv: Seq<i32>, qf: int, sd: int, lo: int, k: int)
    requires
        1 <= lo <= k,
        lo == 1 || iv[lo - 1] * qf <= sd,
        forall|j: int| lo <= j < k ==> iv[j] * qf > sd,
    ensures
        threshold_index(iv, qf, sd, k) == lo - 1,
    decreases k,
{
    if k > lo {
        lemma_threshold_index(iv, qf, sd, lo, k - 1);
    }
}

proof fn lemma_threshold_index_range(iv: Seq<i32>, qf: int, sd: int, k: int)
    ensures
        0 <= threshold_index(iv, qf, sd, k),
        k >= 1 ==> threshold_index(iv, qf, sd, k) < k,
    decreases k,
{
    if k > 1 {
        lemma_threshold_index_range(iv, qf, sd, k - 1);
    }
}

/// A quantized codeword never exceeds the largest magnitude of its subband.
pub proof fn lemma_quantized_in_range(v: SubbandView, diff: i32)
    requires
        v.inv(),
    ensures
        -v.max_magnitude() <= v.quantized(diff).0 <= v.max_magnitude(),
        1 <= v.max_magnitude() <= 255,
{
    lemma2_to64();
    lemma_table_len_small(v.bits());
    let iv = interval_table(v.bits());
    let sd = abs_int(diff as int) * 524288;
    lemma_threshold_index_range(iv, v.effective_factor(), sd, iv.len() as int);
}

proof fn lemma_threshold_index_monotone(iv: Seq<i32>, qf: int, sd1: int, sd2: int, k: int)
    requires
        sd1 <= sd2,
    ensures
        threshold_index(iv, qf, sd1, k) <= threshold_index(iv, qf, sd2, k),
    decreases k,
{
    if k > 1 {
        lemma_threshold_index_range(iv, qf, sd1, k - 1);
        lemma_threshold_index_monotone(iv, qf, sd1, sd2, k - 1);
    }
}

/// The quantizer is monotone: a larger difference never gets a smaller
/// codeword.
pub proof fn lemma_quantized_monotone(v: SubbandView, d1: i32, d2: i32)
    requires
        d1 <= d2,
    ensures
        v.quantized(d1).0 <= v.quantized(d2).0,
{
    lemma2_to64();
    lemma_table_len_small(v.bits());
    let iv = interval_table(v.bits());
    let qf = v.effective_factor();
    let n = iv.len() as int;
    let mm = v.max_magnitude();
    let s1 = abs_int(d1 as int) * 524288;
    let s2 = abs_int(d2 as int) * 524288;
    lemma_threshold_index_range(iv, qf, s1, n);
    lemma_threshold_index_range(iv, qf, s2, n);
    if 0 <= d1 {
        lemma_threshold_index_monotone(iv, qf, s1, s2, n);
    } else if d2 < 0 {
        lemma_threshold_index_monotone(iv, qf, s2, s1, n);
    }
    let i1 = min_int(threshold_index(iv, qf, s1, n), mm);
    let i2 = min_int(threshold_index(iv, qf, s2, n), mm);
    assert(0 <= i1 <= 255 && 0 <= i2 <= 255);
}

/// The quantizer is odd: negating the difference negates the codeword and
/// keeps the quantization error.
pub proof fn lemma_quantized_odd(v: SubbandView, d: i32)
    requires
        d != i32::MIN,
    ensures
        v.quantized((-d) as i32).0 == -v.quantized(d).0,
        v.quantized((-d) as i32).1 == v.quantized(d).1,
{
    lemma2_to64();
    lemma_table_len_small(v.bits());
    let iv = interval_table(v.bits());
    let qf = v.effective_factor();
    let n = iv.len() as int;
    let nd = (-d) as i32;
    assert(abs_int(nd as int) == abs_int(d as int));
    let sd = abs_int(d as int) * 524288;
    lemma_threshold_index_range(iv, qf, sd, n);
    let idx = min_int(threshold_index(iv, qf, sd, n), v.max_magnitude());
    assert(0 <= idx <= 255);
    if d == 0 {
        assert forall|j: int| 1 <= j < n implies #[trigger] iv[j] * qf > sd by {
            assert(iv[j] == (j * j) as i32);
            assert(1 <= j * j <= 65536) by (nonlinear_arith)
                requires
                    1 <= j <= 256,
            ;
            assert(iv[j] * qf >= 1) by (nonlinear_arith)
                requires
                    iv[j] >= 1,
                    qf >= 1,
            ;
        }
        lemma_threshold_index(iv, qf, sd, 1, n);
        assert(idx == 0);
    }
}

proof fn lemma_threshold_index_spec(iv: Seq<i32>, qf: int, sd: int, k: int)
    ensures
        ({
            let t = threshold_index(iv, qf, sd, k);
            &&& t == 0 || iv[t] * qf <= sd
            &&& forall|j: int| t < j < k && j >= 1 ==> #[trigger] iv[j] * qf > sd
        }),
    decreases k,
{
    if k > 1 {
        lemma_threshold_index_spec(iv, qf, sd, k - 1);
        lemma_threshold_index_range(iv, qf, sd, k - 1);
    }
}

/// The quantizer picks the largest magnitude `m` (up to the subband's
/// largest codeword) whose threshold `m^2 * qf` does not exceed
/// `|diff| * 2^19`; the codeword carries the sign of `diff`, and the
/// second result is the distance from that threshold.
pub proof fn lemma_quantized_threshold(v: SubbandView, d: i32)
    requires
        v.inv(),
    ensures
        ({
            let (cw, err) = v.quantized(d);
            let m = abs_int(cw as int);
            let qf = v.quantization_factor as int;
            let sd = abs_int(d as int) * 524288;
            &&& 0 <= m <= v.max_magnitude()
            &&& (d < 0 ==> cw <= 0) && (d >= 0 ==> cw >= 0)
            &&& m * m * qf <= sd
            &&& m < v.max_magnitude() ==> (m + 1) * (m + 1) * qf > sd
            &&& err == (sd - m * m * qf) as i32
        }),
{
    lemma2_to64();
    lemma_table_len_small(v.bits());
    lemma_quantization_factor_range(v.factor_select as int);
    let iv = interval_table(v.bits());
    let qf = v.effective_factor();
    assert(qf == v.quantization_factor as int);
    let n = iv.len() as int;
    let mm = v.max_magnitude();
    let sd = abs_int(d as int) * 524288;
    lemma_threshold_index_range(iv, qf, sd, n);
    lemma_threshold_index_spec(iv, qf, sd, n);
    let t = threshold_index(iv, qf, sd, n);
    let m = min_int(t, mm);
    assert(n == mm + 2);
    assert(0 <= t <= 256 && 0 <= m <= 255);
    assert(0 <= m * m <= 65536 && 0 <= t * t <= 65536) by (nonlinear_arith)
        requires
            0 <= m <= 255,
            0 <= t <= 256,
    ;
    assert(iv[m] == m * m);
    assert(iv[t] == t * t);
    assert(m * m * qf <= sd) by {
        if m > 0 {
            assert(t > 0);
            assert(iv[t] * qf <= sd);
            assert(t * t * qf <= sd);
            assert(m * m * qf <= t * t * qf) by (nonlinear_arith)
                requires
                    0 <= m <= t,
                    qf >= 1,
            ;
        } else {
            assert(m * m * qf == 0) by (nonlinear_arith)
                requires
                    m == 0,
            ;
            assert(sd >= 0);
        }
    }
    if m < mm {
        assert(m == t);
        assert(0 <= (m + 1) * (m + 1) <= 65536) by (nonlinear_arith)
            requires
                0 <= m <= 255,
        ;
        assert(iv[m + 1] == (m + 1) * (m + 1));
        assert(iv[m + 1] * qf > sd);
    }
    assert(abs_int(sd - iv[m] * qf) == sd - m * m * qf);
}

/// Without dither, inverse quantization scales the squared magnitude by the
/// quantization factor: `sign(cw) * (qf * m^2) / 2^19` for `m = |cw|` up
/// to the table's last entry.
pub proof fn lemma_inverse_quantized_no_dither(v: SubbandView, cw: i32)
    requires
        v.inv(),
        cw != i32::MIN,
        abs_int(cw as int) <= pow2((v.bits() - 1) as nat),
    ensures
        ({
            let m = abs_int(cw as int);
            let r = (v.quantization_factor as int * (m * m)) / 524288;
            v.inverse_quantized(cw, 0) as int == if cw < 0 { -r } else { r }
        }),
{
    lemma2_to64();
    lemma_table_len_small(v.bits());
    lemma_quantization_factor_range(v.factor_select as int);
    let m = abs_int(cw as int);
    let qf = v.quantization_factor as int;
    let df = dither_factor_table(v.bits());
    assert(0 <= m <= 256);
    assert(0 <= m * m <= 65536) by (nonlinear_arith)
        requires
            0 <= m <= 256,
    ;
    let f = df[m] as int;
    assert(abs_int(0) * f == 0) by (nonlinear_arith);
    assert(0 <= qf * (m * m) <= 902905856 * 65536) by (nonlinear_arith)
        requires
            1 <= qf <= 902905856,
            0 <= m * m <= 65536,
    ;
    if m == 0 {
        assert(qf * (m * m) == 0);
    }
}

/// Every update keeps the state's bounds, variant and subband.
pub proof fn lemma_updated_inv(v: SubbandView, cw: i32, rd: i32, rs: i32)
    requires
        v.inv(),
    ensures
        v.updated(cw, rd, rs).inv(),
        v.updated(cw, rd, rs).variant == v.variant,
        v.updated(cw, rd, rs).subband == v.subband,
{
    let u = v.updated(cw, rd, rs);
    lemma_quantization_factor_range(u.factor_select as int);
    assert(u.d_weight.len() == v.order());
    assert forall|i: int| 0 <= i < u.d_weight.len() implies -0x800000 <= #[trigger] u.d_weight[i]
        <= 0x7fffff by {
    }
    assert(u.reconstructed_differences.len() == 2 * v.order());
}

/// Inverse quantization is odd in the codeword: negating the codeword
/// negates the reconstructed difference, whatever the dither.
pub proof fn lemma_inverse_quantized_negates(v: SubbandView, cw: i32, dither: i32)
    requires
        v.inv(),
        cw != i32::MIN,
    ensures
        v.inverse_quantized((-cw) as i32, dither) == -v.inverse_quantized(cw, dither),
{
    lemma2_to64();
    lemma_table_len_small(v.bits());
    lemma_quantization_factor_range(v.factor_select as int);
    let qf = v.effective_factor();
    let iv = interval_table(v.bits());
    let df = dither_factor_table(v.bits());
    let idx = min_int(abs_int(cw as int), iv.len() - 1);
    assert(abs_int(((-cw) as i32) as int) == abs_int(cw as int));
    assert(0 <= idx <= 256);
    let interval_mag = if idx == 0 {
        0
    } else {
        iv[idx] as int
    };
    assert(0 <= interval_mag <= 65536) by (nonlinear_arith)
        requires
            idx == 0 ==> interval_mag == 0,
            idx != 0 ==> interval_mag == ((idx * idx) as i32),
            0 <= idx <= 256,
    ;
    let f = df[idx] as int;
    assert(-768 <= f <= 768);
    let d = abs_int(dither as int);
    assert(-0x18000000000 <= d * f <= 0x18000000000) by (nonlinear_arith)
        requires
            0 <= d <= 0x80000000,
            -768 <= f <= 768,
    ;
    let blend = (d * f) / 8388608;
    assert(-196609 <= blend <= 196608);
    let q = interval_mag + blend;
    assert(-0x1000000000000 <= qf * q <= 0x1000000000000) by (nonlinear_arith)
        requires
            1 <= qf <= 902905856,
            -196609 <= q <= 262144,
    ;
    let m = (qf * q) / 524288;
    assert(-0x20000000 <= m <= 0x20000000);
    let ncw = (-cw) as i32;
    assert(ncw as int == -(cw as int));
    assert(v.inverse_quantized(cw, dither) as int == if cw < 0 { -m } else { m });
    assert(v.inverse_quantized(ncw, dither) as int == if ncw < 0 { -m } else { m });
    if cw == 0 {
        assert(idx == 0);
        assert(f == 0);
        assert(d * f == 0) by (nonlinear_arith)
            requires
                f == 0,
        ;
        assert(qf * q == 0) by (nonlinear_arith)
            requires
                q == 0,
        ;
    }
}

proof fn lemma_dot_zero(dw: Seq<i32>, rd: Seq<i32>, k: int)
    requires
        0 <= k <= dw.len(),
        forall|i: int| 0 <= i < dw.len() ==> #[trigger] dw[i] == 0,
    ensures
        dot(dw, rd, k) == 0,
    decreases k,
{
    if k > 0 {
        lemma_dot_zero(dw, rd, k - 1);
        assert(dw[k - 1] * rd[k - 1] == 0) by (nonlinear_arith)
            requires
                dw[k - 1] == 0,
        ;
    }
}

proof fn lemma_dot_one_tap(dw: Seq<i32>, rd: Seq<i32>, k: int)
    requires
        1 <= k <= dw.len(),
        forall|i: int| 1 <= i < dw.len() ==> #[trigger] dw[i] == 0,
    ensures
        dot(dw, rd, k) == dw[0] * rd[0],
    decreases k,
{
    assert(dot(dw, rd, 0) == 0);
    if k > 1 {
        lemma_dot_one_tap(dw, rd, k - 1);
        assert(dw[k - 1] * rd[k - 1] == 0) by (nonlinear_arith)
            requires
                dw[k - 1] == 0,
        ;
    }
}

/// The prediction is the sum of a short-term and a long-term term: with
/// no short-term contribution (`(s_weight0 + s_weight1) * previous == 0`)
/// it is the clipped long-term term `dot(d_weight, rd) / 2^22`, with all
/// long-term weights zero it is the clipped short-term term
/// `((s_weight0 + s_weight1) * previous) / 2^22`, and with a single
/// long-term weight it is `d_weight[0] * rd[0] / 2^22`, clipped.
pub proof fn lemma_prediction_terms(v: SubbandView)
    requires
        v.d_weight.len() == v.order(),
    ensures
        (v.s_weight0 + v.s_weight1) * v.previous_reconstructed_sample == 0 ==> v.predicted()
            == clip24_int(((dot(v.d_weight, v.reconstructed_differences, v.order()) / 4194304) as i32) as int),
        (forall|i: int| 0 <= i < v.order() ==> #[trigger] v.d_weight[i] == 0) ==> v.predicted()
            == clip24_int(((((v.s_weight0 + v.s_weight1) * v.previous_reconstructed_sample) / 4194304) as i32) as int),
        ((v.s_weight0 + v.s_weight1) * v.previous_reconstructed_sample == 0 && (forall|i: int|
            1 <= i < v.order() ==> #[trigger] v.d_weight[i] == 0)) ==> v.predicted() == clip24_int(
            (((v.d_weight[0] * v.reconstructed_differences[0]) / 4194304) as i32) as int,
        ),
{
    assert(v.order() >= 6) by {
        assert(v.subband.spec_prediction_order() >= 6);
    }
    if forall|i: int| 0 <= i < v.order() ==> #[trigger] v.d_weight[i] == 0 {
        lemma_dot_zero(v.d_weight, v.reconstructed_differences, v.order());
    }
    if forall|i: int| 1 <= i < v.order() ==> #[trigger] v.d_weight[i] == 0 {
        lemma_dot_one_tap(v.d_weight, v.reconstructed_differences, v.order());
    }
}

/// A fresh subband state predicts zero.
pub proof fn lemma_initial_predicts_zero(variant: Variant, subband: Subband)
    ensures
        initial_subband_view(variant, subband).predicted() == 0,
{
    let v = initial_subband_view(variant, subband);
    lemma_dot_zero(v.d_weight, v.reconstructed_differences, v.order());
    let w = v.s_weight0 + v.s_weight1;
    let prev = v.previous_reconstructed_sample as int;
    assert(w * prev == 0) by (nonlinear_arith)
        requires
            prev == 0,
    ;
}

/// A fresh subband state keeps its bounds.
pub proof fn lemma_initial_inv(variant: Variant, subband: Subband)
    ensures
        initial_subband_view(variant, subband).inv(),
{
    lemma_quantization_factor_range(0);
}

proof fn lemma_table_len_small(bits: nat)
    requires
        2 <= bits <= 9,
    ensures
        3 <= table_len(bits) <= 257,
        pow2((bits - 1) as nat) >= 2,
{
    lemma2_to64();
}

// ---------------------------------------------------------------------------
// Concrete state
// ---------------------------------------------------------------------------

#[derive(Clone, Debug)]
pub struct SubbandState {
    pub variant: Variant,
    pub subband: Subband,
    pub tables: SubbandTables,
    /// Step-size index into the quantizer ladder, capped at `subband.factor_max()`.
    pub factor_select: i32,
    /// Cached quantization factor of `factor_select`.
    pub quantization_factor: i32,
    /// Most recent reconstructed difference.
    pub reconstructed_difference: i32,
    /// Two short-term sample-domain predictor weights.
    pub s_weight: [i32; 2],
    /// Long-term difference-domain weights, one per prediction tap.
    pub d_weight: Vec<i32>,
    /// Reconstructed-difference history, twice the prediction order long.
    pub reconstructed_differences: Vec<i32>,
    /// Previous reconstructed sample, the anchor of the short-term predictor.
    pub previous_reconstructed_sample: i32,
}

impl View for SubbandState {
    type V = SubbandView;

    open spec fn view(&self) -> SubbandView {
        SubbandView {
            variant: self.variant,
            subband: self.subband,
            factor_select: self.factor_select,
            quantization_factor: self.quantization_factor,
            reconstructed_difference: self.reconstructed_difference,
            s_weight0: self.s_weight[0],
            s_weight1: self.s_weight[1],
            d_weight: self.d_weight@,
            reconstructed_differences: self.reconstructed_differences@,
            previous_reconstructed_sample: self.previous_reconstructed_sample,
        }
    }
}

impl SubbandState {
    /// Well-formed: the tables are those of the variant and subband, and the
    /// state keeps its bounds.
    pub open spec fn wf(&self) -> bool {
        &&& self@.inv()
        &&& self.tables.matches(self@.bits())
    }

    pub fn new(variant: Variant, subband: Subband) -> (s: SubbandState)
        ensures
            s.wf(),
            s@ == initial_subband_view(variant, subband),
    {
        let n = subband.prediction_order();
        let factor_max = subband.factor_max();
        let qf = compute_quantization_factor(0, factor_max);
        let s = SubbandState {
            variant,
            subband,
            tables: SubbandTables::new(variant, subband),
            factor_select: 0,
            quantization_factor: qf,
            reconstructed_difference: 0,
            s_weight: [0, 0],
            d_weight: vec_of_zeros(n),
            reconstructed_differences: vec_of_zeros(2 * n),
            previous_reconstructed_sample: 0,
        };
        proof {
            assert(s@.d_weight =~= initial_subband_view(variant, subband).d_weight);
            assert(s@.reconstructed_differences =~= initial_subband_view(
                variant,
                subband,
            ).reconstructed_differences);
        }
        s
    }

    pub fn quantization_factor(&self) -> (qf: i32)
        ensures
            qf == self.quantization_factor,
    {
        self.quantization_factor
    }

    /// Forward predict the next subband sample.
    pub fn predict(&self) -> (p: i32)
        requires
            self.wf(),
        ensures
            p == self@.predicted(),
            -0x800000 <= p <= 0x7fffff,
    {
        let s_sum = self.s_weight[0] as i64 + self.s_weight[1] as i64;
        let prev = self.previous_reconstructed_sample as i64;
        proof {
            assert(-0x0100000000000000 <= s_sum * prev <= 0x0100000000000000) by (nonlinear_arith)
                requires
                    -0x800000 <= s_sum <= 0x800000,
                    -0x80000000 <= prev <= 0x7fffffff,
            ;
        }
        let s_prod = s_sum * prev;
        proof {
            lemma_shr_i64_wide(s_prod);
        }
        let s_term = s_prod >> 22;
        let n = self.subband.prediction_order();
        let mut d_term: i64 = 0;
        let mut i: usize = 0;
        while i < n
            invariant
                self.wf(),
                n == self@.order(),
                i <= n,
                d_term as int == dot(self@.d_weight, self@.reconstructed_differences, i as int),
            decreases n - i,
        {
            proof {
                lemma_dot_bounded(self@.d_weight, self@.reconstructed_differences, i as int + 1);
                lemma_dot_bounded(self@.d_weight, self@.reconstructed_differences, i as int);
            }
            d_term = d_term + self.d_weight[i] as i64 * self.reconstructed_differences[i] as i64;
            i = i + 1;
        }
        proof {
            lemma_dot_bounded(self@.d_weight, self@.reconstructed_differences, n as int);
            lemma_shr_i64_wide(d_term);
        }
        d_term = d_term >> 22;
        clip24((s_term + d_term) as i32)
    }

    /// Encoder side: quantize a signed difference into a signed codeword,
    /// returned with the quantization error that the parity chooser ranks.
    pub fn quantize(&self, diff: i32) -> (r: (i32, i32))
        requires
            self.wf(),
        ensures
            r == self@.quantized(diff),
            -self@.max_magnitude() <= r.0 <= self@.max_magnitude(),
            diff == 0 ==> r.0 == 0,
    {
        let qf = if self.quantization_factor < 1 {
            1i64
        } else {
            self.quantization_factor as i64
        };
        let bits = self.subband.bits(self.variant);
        proof {
            lemma_table_len_small(bits as nat);
            lemma2_to64();
        }
        proof {
            assert((1i32 << ((bits - 1) as u32)) == pow2((bits - 1) as nat)) by {
                let b = (bits - 1) as u32;
                assert(1 <= b <= 8);
                assert((1i32 << b) == if b == 1 { 2i32 } else if b == 2 { 4i32 } else if b == 3 {
                    8i32
                } else if b == 4 { 16i32 } else if b == 5 { 32i32 } else if b == 6 { 64i32 } else if b == 7 {
                    128i32
                } else { 256i32 }) by (bit_vector)
                    requires
                        1 <= b <= 8,
                ;
            }
            lemma_quantization_factor_range(self.factor_select as int);
        }
        let max_mag = (1i32 << ((bits - 1) as u32)) - 1;
        let abs_diff = unsigned_abs_i32(diff) as i64;
        proof {
            assert(abs_diff << 19u64 == abs_diff * 524288) by (bit_vector)
                requires
                    0 <= abs_diff <= 0x80000000,
            ;
        }
        let scaled_diff = abs_diff << 19u64;
        let intervals = &self.tables.intervals;
        let ghost iv = interval_table(bits as nat);
        let len = intervals.len();
        let mut lo: usize = 1;
        let mut hi: usize = len;
        while lo < hi
            invariant
                intervals@ == iv,
                iv == interval_table(bits as nat),
                len == iv.len(),
                3 <= len <= 257,
                1 <= lo <= hi <= len,
                1 <= qf <= 902905856,
                lo == 1 || iv[lo - 1] * qf <= scaled_diff,
                forall|j: int| hi <= j < len ==> iv[j] * qf > scaled_diff,
            decreases hi - lo,
        {
            let mid = (lo + hi) / 2;
            let ivm = intervals[mid] as i64;
            proof {
                assert(0 <= ivm <= 65536) by (nonlinear_arith)
                    requires
                        ivm == ((mid * mid) as i32),
                        0 <= mid <= 256,
                ;
                assert(ivm * qf <= 65536 * 902905856) by (nonlinear_arith)
                    requires
                        0 <= ivm <= 65536,
                        1 <= qf <= 902905856,
                ;
            }
            let thr = ivm * qf;
            if thr <= scaled_diff {
                lo = mid + 1;
            } else {
                proof {
                    assert forall|j: int| mid <= j < len implies iv[j] * qf > scaled_diff by {
                        assert(mid * mid <= j * j) by (nonlinear_arith)
                            requires
                                0 <= mid <= j,
                        ;
                        assert(j * j <= 65536) by (nonlinear_arith)
                            requires
                                0 <= j <= 256,
                        ;
                        lemma_mul_inequality(iv[mid as int] as int, iv[j] as int, qf as int);
                    }
                }
                hi = mid;
            }
        }
        proof {
            lemma_threshold_index(iv, qf as int, scaled_diff as int, lo as int, len as int);
        }
        let k = (lo as i32) - 1;
        let idx = if k < 0 {
            0
        } else if k > max_mag {
            max_mag
        } else {
            k
        };
        let codeword = if diff < 0 {
            -idx
        } else {
            idx
        };
        proof {
            assert(0 <= intervals@[idx as int] <= 65536) by (nonlinear_arith)
                requires
                    intervals@[idx as int] == ((idx * idx) as i32),
                    0 <= idx <= 255,
            ;
            assert(intervals@[idx as int] * qf <= 65536 * 902905856) by (nonlinear_arith)
                requires
                    0 <= intervals@[idx as int] <= 65536,
                    1 <= qf <= 902905856,
            ;
        }
        let centre = (intervals[idx as usize] as i64) * qf;
        let err = unsigned_abs_i64(scaled_diff - centre) as i32;
        proof {
            if diff == 0 {
                assert forall|j: int| 1 <= j < len implies iv[j] * qf > 0 by {
                    assert(j * j >= 1) by (nonlinear_arith)
                        requires
                            1 <= j,
                    ;
                    assert(j * j <= 65536) by (nonlinear_arith)
                        requires
                            0 <= j <= 256,
                    ;
                    assert(iv[j] * qf > 0) by (nonlinear_arith)
                        requires
                            iv[j] >= 1,
                            qf >= 1,
                    ;
                }
                lemma_threshold_index(iv, qf as int, 0, 1, len as int);
            }
        }
        (codeword, err)
    }

    /// Decoder side: invert a signed codeword to the reconstructed difference,
    /// folding in the dither. The result is negate-symmetric in `codeword`.
    pub fn invert_quantize(&self, codeword: i32, dither: i32) -> (r: i32)
        requires
            self.wf(),
        ensures
            r == self@.inverse_quantized(codeword, dither),
            -0x20000000 <= r <= 0x20000000,
    {
        let qf = if self.quantization_factor < 1 {
            1i64
        } else {
            self.quantization_factor as i64
        };
        let mag = unsigned_abs_i32(codeword) as usize;
        let max_idx = self.tables.intervals.len() - 1;
        proof {
            lemma_table_len_small(self@.bits());
            lemma_quantization_factor_range(self.factor_select as int);
        }
        let idx = if mag < max_idx {
            mag
        } else {
            max_idx
        };
        let interval_mag = if idx == 0 {
            0i64
        } else {
            self.tables.intervals[idx] as i64
        };
        let invert_dith = self.tables.dither_factors[idx] as i64;
        let dabs = unsigned_abs_i32(dither) as i64;
        proof {
            assert(0 <= interval_mag <= 65536) by (nonlinear_arith)
                requires
                    idx == 0 ==> interval_mag == 0,
                    idx != 0 ==> interval_mag == ((idx * idx) as i32),
                    0 <= idx <= 256,
            ;
            assert(-768 <= invert_dith <= 768);
            assert(-0x18000000000 <= dabs * invert_dith <= 0x18000000000) by (nonlinear_arith)
                requires
                    0 <= dabs <= 0x80000000,
                    -768 <= invert_dith <= 768,
            ;
            lemma_shr_i64((dabs * invert_dith) as i64);
        }
        let dith_blend = (dabs * invert_dith) >> 23u64;
        let qr_mag = interval_mag + dith_blend;
        proof {
            assert(-196608 <= dith_blend <= 196608);
            assert(-0x1000000000000 <= qf * qr_mag <= 0x1000000000000) by (nonlinear_arith)
                requires
                    1 <= qf <= 902905856,
                    -196608 <= qr_mag <= 262144,
            ;
        }
        let prod = qf * qr_mag;
        proof {
            assert(-0x1000000000000 <= prod <= 0x1000000000000);
            lemma_shr_i64(prod);
        }
        let abs_recon = prod >> 19u64;
        let result = if codeword < 0 {
            -abs_recon
        } else {
            abs_recon
        };
        result as i32
    }

    /// Update the predictor and step-size state after a codeword. Called the
    /// same way by encoder and decoder.
    #[verifier::spinoff_prover]
    #[verifier::rlimit(40)]
    pub fn update_state(&mut self, codeword: i32, reconstructed_diff: i32, reconstructed_sample: i32)
        requires
            old(self).wf(),
        ensures
            final(self).wf(),
            final(self)@ == old(self)@.updated(codeword, reconstructed_diff, reconstructed_sample),
            final(self).tables == old(self).tables,
    {
        let ghost old_view = self@;
        let ghost bits = self@.bits();
        proof {
            lemma_table_len_small(bits);
            lemma2_to64();
        }
        // ----- Step-size adaptation -----
        let mag = unsigned_abs_i32(codeword) as usize;
        let max_idx = self.tables.factor_select_offsets.len() - 1;
        let idx = if mag < max_idx {
            mag
        } else {
            max_idx
        };
        let offset = self.tables.factor_select_offsets[idx] as i64;
        let factor_max = self.subband.factor_max();
        proof {
            assert(-64 <= offset <= 256);
        }
        proof {
            assert(offset << 15u64 == offset * 32768) by (bit_vector)
                requires
                    -64 <= offset <= 256,
            ;
        }
        let acc = FACTOR_SELECT_LEAK * (self.factor_select as i64) + (offset << 15u64);
        proof {
            lemma_shr_i64((acc + 16384) as i64);
        }
        let new_fs = ((acc + 16384) >> 15u64) as i32;
        self.factor_select = if new_fs < 0 {
            0
        } else if new_fs > factor_max {
            factor_max
        } else {
            new_fs
        };
        self.quantization_factor = compute_quantization_factor(self.factor_select, factor_max);

        // ----- Predictor history update -----
        shift_in(&mut self.reconstructed_differences, reconstructed_diff);

        // ----- Sign-LMS d_weight update -----
        let csign = sign_i32(reconstructed_diff);
        update_d_weights(&mut self.d_weight, &self.reconstructed_differences, csign);
        proof {
            assert(self.d_weight@ =~= old_view.updated(
                codeword,
                reconstructed_diff,
                reconstructed_sample,
            ).d_weight);
        }

        // ----- Short-term s_weight update -----
        let s_sign: i64 = if sign_i32(reconstructed_sample) == sign_i32(
            self.previous_reconstructed_sample,
        ) && reconstructed_sample != 0 {
            1
        } else if reconstructed_sample != 0 {
            -1
        } else {
            0
        };
        let target0 = s_sign * 0x800000i64;
        let s0 = self.s_weight[0] as i64;
        proof {
            lemma_shr_i64(((s0 - target0) * 2) as i64);
        }
        let s0_new = s0 - (((s0 - target0) * 2) >> 8u64);
        self.s_weight[0] = clamp_i64(s0_new, -0x300000, 0x300000) as i32;
        let target1 = s_sign * 0xC00000i64;
        let s1 = self.s_weight[1] as i64;
        proof {
            lemma_shr_i64((s1 - target1) as i64);
        }
        let s1_new = s1 - ((s1 - target1) >> 8u64);
        let s0_abs = unsigned_abs_i32(self.s_weight[0]) as i64;
        let s1_cap = if 0x3C0000i64 - s0_abs > 0 {
            0x3C0000i64 - s0_abs
        } else {
            0
        };
        self.s_weight[1] = clamp_i64(s1_new, -s1_cap, s1_cap) as i32;

        // Anchor for the next prediction.
        self.previous_reconstructed_sample = reconstructed_sample;
        self.reconstructed_difference = reconstructed_diff;
        proof {
            assert(self@ =~= old_view.updated(codeword, reconstructed_diff, reconstructed_sample));
        }
    }
}

/// Shift `x` in at the front of the history, dropping the oldest entry
/// (a right rotation by one followed by a store at index 0).
fn shift_in(v: &mut Vec<i32>, x: i32)
    requires
        old(v)@.len() >= 1,
    ensures
        final(v)@ == seq![x].add(old(v)@.subrange(0, old(v)@.len() - 1)),
{
    let ghost old_v = v@;
    let len = v.len();
    let mut k: usize = len - 1;
    while k > 0
        invariant
            len == old_v.len(),
            k < len,
            v@.len() == len,
            forall|j: int| 0 <= j <= k ==> #[trigger] v@[j] == old_v[j],
            forall|j: int| k < j < len ==> #[trigger] v@[j] == old_v[j - 1],
        decreases k,
    {
        let e = v[k - 1];
        v.set(k, e);
        k = k - 1;
    }
    v.set(0, x);
    proof {
        assert(v@ =~= seq![x].add(old_v.subrange(0, len - 1)));
    }
}

/// One sign-LMS step on every long-term weight: weight `i` moves towards
/// `csign * sign(history[i + 1]) * 2^23` with leak 255/256.
fn update_d_weights(dw: &mut Vec<i32>, history: &Vec<i32>, csign: i64)
    requires
        -1 <= csign <= 1,
        old(dw)@.len() < history@.len(),
        forall|j: int|
            0 <= j < old(dw)@.len() ==> -0x800000 <= #[trigger] old(dw)@[j] <= 0x7fffff,
    ensures
        final(dw)@ == Seq::new(
            old(dw)@.len(),
            |j: int|
                d_weight_step(
                    old(dw)@[j] as int,
                    csign * sign_int(history@[j + 1] as int) * 0x800000,
                ) as i32,
        ),
{
    let ghost old_dw = dw@;
    let n = dw.len();
    let mut i: usize = 0;
    while i < n
        invariant
            n == old_dw.len(),
            n < history@.len(),
            -1 <= csign <= 1,
            i <= n,
            dw@.len() == n,
            forall|j: int| 0 <= j < n ==> -0x800000 <= #[trigger] old_dw[j] <= 0x7fffff,
            forall|j: int|
                0 <= j < i ==> #[trigger] dw@[j] == d_weight_step(
                    old_dw[j] as int,
                    csign * sign_int(history@[j + 1] as int) * 0x800000,
                ) as i32,
            forall|j: int| i <= j < n ==> #[trigger] dw@[j] == old_dw[j],
        decreases n - i,
    {
        let psign = sign_i32(history[i + 1]);
        let target = csign * psign * 0x800000;
        let w = dw[i] as i64;
        proof {
            assert(-0x800000 <= w <= 0x7fffff);
            lemma_shr_i64((w - target) as i64);
        }
        let leak = (w - target) >> 8u64;
        let updated = w - leak;
        let clamped = clamp_i64(updated, -0x800000, 0x7fffff);
        dw.set(i, clamped as i32);
        i = i + 1;
    }
    proof {
        assert(dw@ =~= Seq::new(
            old_dw.len(),
            |j: int| d_weight_step(old_dw[j] as int, csign * sign_int(history@[j + 1] as int) * 0x800000) as i32,
        ));
    }
}

/// A vector of `n` zeros.
fn vec_of_zeros(n: usize) -> (v: Vec<i32>)
    ensures
        v@ == Seq::new(n as nat, |i: int| 0i32),
{
    let mut v: Vec<i32> = Vec::with_capacity(n);
    let mut i: usize = 0;
    while i < n
        invariant
            i <= n,
            v@ =~= Seq::new(i as nat, |j: int| 0i32),
        decreases n - i,
    {
        v.push(0);
        i = i + 1;
    }
    v
}

} // verus!
