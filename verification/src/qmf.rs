//! Two-stage dyadic QMF (quadrature mirror filter) tree.
//!
//! aptX classic and HD share a 16-tap two-stage cascade: the outer stage
//! splits 4 PCM samples into two intermediate bands of 2 samples each, and
//! the inner stage splits each of those into two, giving the 4 subbands
//! `[LF, MLF, MHF, HF]`. Each stage ends in a rounded right shift (outer /
//! inner: 23 / 23 for analysis, 21 / 22 for synthesis) and a 24-bit clip.
//!
//! Each filter keeps a 32-entry buffer holding the 16-sample history twice,
//! so a convolution reads 16 contiguous entries.

use vstd::prelude::*;
use vstd::arithmetic::power2::{pow2, lemma2_to64};

verus! {

/// Outer QMF filter set 0 (16 taps).
pub const OUTER_COEFFS_0: [i32; 16] = [
    730, -413, -9611, 43626, -121026, 269973, -585547, 2801966, 697128, -160481, 27611, 8478,
    -10043, 3511, 688, -897,
];

/// Outer QMF filter set 1 (mirror of set 0).
pub const OUTER_COEFFS_1: [i32; 16] = [
    -897, 688, 3511, -10043, 8478, 27611, -160481, 697128, 2801966, -585547, 269973, -121026,
    43626, -9611, -413, 730,
];

/// Inner QMF filter set 0 (16 taps).
pub const INNER_COEFFS_0: [i32; 16] = [
    1033, -584, -13592, 61697, -171156, 381799, -828088, 3962579, 985888, -226954, 39048, 11990,
    -14203, 4966, 973, -1268,
];

/// Inner QMF filter set 1 (mirror of set 0).
pub const INNER_COEFFS_1: [i32; 16] = [
    -1268, 973, 4966, -14203, 11990, 39048, -226954, 985888, 3962579, -828088, 381799, -171156,
    61697, -13592, -584, 1033,
];

const SHIFT_OUTER_ANA: u32 = 23;

const SHIFT_OUTER_SYN: u32 = 21;

const SHIFT_INNER_ANA: u32 = 23;

const SHIFT_INNER_SYN: u32 = 22;

// ---------------------------------------------------------------------------
// Arithmetic
// ---------------------------------------------------------------------------

/// 24-bit signed clip.
pub open spec fn clip24_spec(v: int) -> int {
    if v < -0x800000 {
        -0x800000
    } else if v > 0x7fffff {
        0x7fffff
    } else {
        v
    }
}

/// Rounded right shift: `(v + 2^(bits-1)) / 2^bits`, rounding to nearest.
pub open spec fn rshift_round_spec(v: int, bits: nat) -> int {
    (v + pow2((bits - 1) as nat)) / (pow2(bits) as int)
}

/// `sum_{k < n} c[k] * h[15 - k]`: taps against the history, newest first.
pub open spec fn conv_prefix(h: Seq<i32>, c: [i32; 16], n: int) -> int
    decreases n,
{
    if n <= 0 {
        0
    } else {
        conv_prefix(h, c, n - 1) + c[n - 1] * h[15 - (n - 1)]
    }
}

/// The 16-tap convolution of a history (oldest first) with a filter set.
pub open spec fn conv_spec(h: Seq<i32>, c: [i32; 16]) -> int {
    conv_prefix(h, c, 16)
}

/// The history after one sample is pushed: the oldest drops out.
pub open spec fn push_spec(h: Seq<i32>, s: i32) -> Seq<i32> {
    h.subrange(1, 16).push(s)
}

/// A silent history: 16 zeros.
pub open spec fn zero_history() -> Seq<i32> {
    Seq::new(16, |i: int| 0i32)
}

/// Every tap of both sets is at most 2^22 in magnitude.
pub open spec fn small_coeffs(c: [i32; 16]) -> bool {
    forall|k: int| 0 <= k < 16 ==> -0x400000 <= #[trigger] c[k] <= 0x400000
}

fn clip24(v: i64) -> (r: i32)
    ensures
        r as int == clip24_spec(v as int),
{
    if v < -0x800000 {
        -0x800000
    } else if v > 0x7fffff {
        0x7fffff
    } else {
        v as i32
    }
}

proof fn lemma_pow2_shifts()
    ensures
        pow2(20) == 0x100000,
        pow2(21) == 0x200000,
        pow2(22) == 0x400000,
        pow2(23) == 0x800000,
{
    lemma2_to64();
}

/// Rounded right shift of an accumulator by `bits`.
fn rshift_round(v: i64, bits: u32) -> (r: i64)
    requires
        21 <= bits <= 23,
        -0x1000000000000000 <= v <= 0x1000000000000000,
    ensures
        r as int == rshift_round_spec(v as int, bits as nat),
        -0x1000000000000000 <= r <= 0x1000000000000000,
{
    proof {
        lemma_pow2_shifts();
    }
    let half: i64 = if bits == 21 {
        0x100000
    } else if bits == 22 {
        0x200000
    } else {
        0x400000
    };
    let x = v + half;
    proof {
        assert(x >> 21i64 == x / 0x200000 && x >> 22i64 == x / 0x400000 && x >> 23i64 == x
            / 0x800000) by (bit_vector)
            requires
                -0x2000000000000000 <= x <= 0x2000000000000000,
        ;
    }
    x >> (bits as i64)
}

proof fn lemma_conv_bounded(h: Seq<i32>, c: [i32; 16], n: int)
    requires
        0 <= n <= 16,
        h.len() == 16,
        small_coeffs(c),
    ensures
        -n * 0x20000000000000 <= conv_prefix(h, c, n) <= n * 0x20000000000000,
    decreases n,
{
    if n > 0 {
        lemma_conv_bounded(h, c, n - 1);
        let a = c[n - 1] as int;
        let b = h[15 - (n - 1)] as int;
        assert(-0x20000000000000 <= a * b <= 0x20000000000000) by (nonlinear_arith)
            requires
                -0x400000 <= a <= 0x400000,
                -0x80000000 <= b <= 0x7fffffff,
        ;
    }
}

proof fn lemma_coeffs_small()
    ensures
        small_coeffs(OUTER_COEFFS_0),
        small_coeffs(OUTER_COEFFS_1),
        small_coeffs(INNER_COEFFS_0),
        small_coeffs(INNER_COEFFS_1),
{
}

// ---------------------------------------------------------------------------
// Filter signal
// ---------------------------------------------------------------------------

/// One 16-tap filter signal: a 32-entry buffer with the history stored
/// twice, and a cursor `pos` in `[0, 16)`.
#[derive(Clone, Debug)]
struct FilterSignal {
    buf: [i32; 32],
    pos: usize,
}

impl FilterSignal {
    spec fn wf(&self) -> bool {
        &&& self.pos < 16
        &&& forall|j: int| 0 <= j < 16 ==> #[trigger] self.buf[j] == self.buf[j + 16]
    }

    /// The 16-sample history, oldest first.
    spec fn history(&self) -> Seq<i32> {
        Seq::new(16, |j: int| self.buf[self.pos + j])
    }

    fn new() -> (s: FilterSignal)
        ensures
            s.wf(),
            s.history() == zero_history(),
    {
        let s = FilterSignal { buf: [0;32], pos: 0 };
        proof {
            assert(s.history() =~= zero_history());
        }
        s
    }

    /// Push a new sample: written at `pos` and `pos + 16`, then `pos`
    /// advances (wrapping at 16).
    fn push(&mut self, s: i32)
        requires
            old(self).wf(),
        ensures
            final(self).wf(),
            final(self).history() == push_spec(old(self).history(), s),
    {
        let ghost h = self.history();
        let p = self.pos;
        self.buf[p] = s;
        self.buf[p + 16] = s;
        let q = p + 1;
        self.pos = q & 15;
        proof {
            assert(q & 15 == q % 16) by (bit_vector)
                requires
                    q <= 16,
            ;
            assert forall|j: int| 0 <= j < 16 implies #[trigger] self.history()[j] == push_spec(
                h,
                s,
            )[j] by {
                if j == 15 {
                    if p + 1 < 16 {
                        assert(self.buf[p + 1 + 15] == self.buf[p + 16]);
                    }
                } else {
                    let q = self.pos + j;
                    if q < 16 {
                        assert(self.buf[q] == old(self).buf[q + 16]);
                    }
                }
            }
            assert(self.history() =~= push_spec(h, s));
        }
    }

    /// Convolve the current 16-tap window with `coeffs`: the most recent
    /// sample meets `coeffs[0]`, the next-most-recent `coeffs[1]`, and so on.
    fn conv(&self, coeffs: &[i32; 16]) -> (acc: i64)
        requires
            self.wf(),
            small_coeffs(*coeffs),
        ensures
            acc as int == conv_spec(self.history(), *coeffs),
            -0x200000000000000 <= acc <= 0x200000000000000,
    {
        let mut acc: i64 = 0;
        let p = self.pos;
        let mut k: usize = 0;
        while k < 16
            invariant
                self.wf(),
                small_coeffs(*coeffs),
                p == self.pos,
                k <= 16,
                acc as int == conv_prefix(self.history(), *coeffs, k as int),
            decreases 16 - k,
        {
            proof {
                lemma_conv_bounded(self.history(), *coeffs, k as int + 1);
                lemma_conv_bounded(self.history(), *coeffs, k as int);
            }
            acc = acc + coeffs[k] as i64 * self.buf[p + 15 - k] as i64;
            k = k + 1;
        }
        proof {
            lemma_conv_bounded(self.history(), *coeffs, 16);
        }
        acc
    }
}

// ---------------------------------------------------------------------------
// Stages
// ---------------------------------------------------------------------------

/// Which filter sets and shift a stage uses.
pub open spec fn stage_params_ok(c0: [i32; 16], c1: [i32; 16], shift: u32, outer: bool, analysis: bool) -> bool {
    &&& outer ==> c0 == OUTER_COEFFS_0 && c1 == OUTER_COEFFS_1
    &&& !outer ==> c0 == INNER_COEFFS_0 && c1 == INNER_COEFFS_1
    &&& shift == if analysis {
        23u32
    } else if outer {
        21u32
    } else {
        22u32
    }
}

/// Coefficients of a stage.
pub open spec fn stage_c0(outer: bool) -> [i32; 16] {
    if outer {
        OUTER_COEFFS_0
    } else {
        INNER_COEFFS_0
    }
}

pub open spec fn stage_c1(outer: bool) -> [i32; 16] {
    if outer {
        OUTER_COEFFS_1
    } else {
        INNER_COEFFS_1
    }
}

/// Analysis stage step on history `h`: push `s0` then `s1`, convolve with
/// both sets, and return the new history with the rounded, clipped sum
/// (low band) and difference (high band).
pub open spec fn analysis_step(h: Seq<i32>, outer: bool, s0: i32, s1: i32) -> (Seq<i32>, i32, i32) {
    let h2 = push_spec(push_spec(h, s0), s1);
    let a = conv_spec(h2, stage_c0(outer));
    let b = conv_spec(h2, stage_c1(outer));
    (
        h2,
        clip24_spec(rshift_round_spec(a + b, 23)) as i32,
        clip24_spec(rshift_round_spec(a - b, 23)) as i32,
    )
}

/// Synthesis stage step on histories `(h0, h1)`: push `low + high` into
/// the first and `low - high` into the second, convolve the first with set
/// 1 and the second with set 0, and return the rounded, clipped pair.
pub open spec fn synthesis_step(h0: Seq<i32>, h1: Seq<i32>, outer: bool, low: i32, high: i32) -> (
    Seq<i32>,
    Seq<i32>,
    i32,
    i32,
) {
    let n0 = push_spec(h0, (low + high) as i32);
    let n1 = push_spec(h1, (low - high) as i32);
    let shift: nat = if outer {
        21
    } else {
        22
    };
    (
        n0,
        n1,
        clip24_spec(rshift_round_spec(conv_spec(n0, stage_c1(outer)), shift)) as i32,
        clip24_spec(rshift_round_spec(conv_spec(n1, stage_c0(outer)), shift)) as i32,
    )
}

#[derive(Clone, Debug)]
struct AnalysisStage {
    sig: FilterSignal,
    coeffs0: [i32; 16],
    coeffs1: [i32; 16],
    shift: u32,
}

impl AnalysisStage {
    spec fn wf(&self, outer: bool) -> bool {
        &&& self.sig.wf()
        &&& stage_params_ok(self.coeffs0, self.coeffs1, self.shift, outer, true)
    }

    fn new_outer() -> (s: AnalysisStage)
        ensures
            s.wf(true),
            s.sig.history() == zero_history(),
    {
        AnalysisStage {
            sig: FilterSignal::new(),
            coeffs0: OUTER_COEFFS_0,
            coeffs1: OUTER_COEFFS_1,
            shift: SHIFT_OUTER_ANA,
        }
    }

    fn new_inner() -> (s: AnalysisStage)
        ensures
            s.wf(false),
            s.sig.history() == zero_history(),
    {
        AnalysisStage {
            sig: FilterSignal::new(),
            coeffs0: INNER_COEFFS_0,
            coeffs1: INNER_COEFFS_1,
            shift: SHIFT_INNER_ANA,
        }
    }

    /// Process one pair of input samples into (low, high).
    fn process(&mut self, s0: i32, s1: i32, Ghost(outer): Ghost<bool>) -> (r: (i32, i32))
        requires
            old(self).wf(outer),
        ensures
            final(self).wf(outer),
            (final(self).sig.history(), r.0, r.1) == analysis_step(
                old(self).sig.history(),
                outer,
                s0,
                s1,
            ),
    {
        proof {
            lemma_coeffs_small();
        }
        self.sig.push(s0);
        self.sig.push(s1);
        let a = self.sig.conv(&self.coeffs0);
        let b = self.sig.conv(&self.coeffs1);
        let low = clip24(rshift_round(a + b, self.shift));
        let high = clip24(rshift_round(a - b, self.shift));
        (low, high)
    }
}

#[derive(Clone, Debug)]
struct SynthesisStage {
    sig0: FilterSignal,
    sig1: FilterSignal,
    coeffs0: [i32; 16],
    coeffs1: [i32; 16],
    shift: u32,
}

impl SynthesisStage {
    spec fn wf(&self, outer: bool) -> bool {
        &&& self.sig0.wf()
        &&& self.sig1.wf()
        &&& stage_params_ok(self.coeffs0, self.coeffs1, self.shift, outer, false)
    }

    fn new_outer() -> (s: SynthesisStage)
        ensures
            s.wf(true),
            s.sig0.history() == zero_history(),
            s.sig1.history() == zero_history(),
    {
        SynthesisStage {
            sig0: FilterSignal::new(),
            sig1: FilterSignal::new(),
            coeffs0: OUTER_COEFFS_0,
            coeffs1: OUTER_COEFFS_1,
            shift: SHIFT_OUTER_SYN,
        }
    }

    fn new_inner() -> (s: SynthesisStage)
        ensures
            s.wf(false),
            s.sig0.history() == zero_history(),
            s.sig1.history() == zero_history(),
    {
        SynthesisStage {
            sig0: FilterSignal::new(),
            sig1: FilterSignal::new(),
            coeffs0: INNER_COEFFS_0,
            coeffs1: INNER_COEFFS_1,
            shift: SHIFT_INNER_SYN,
        }
    }

    /// Process one (low, high) pair into two output samples.
    fn process(&mut self, low: i32, high: i32, Ghost(outer): Ghost<bool>) -> (r: (i32, i32))
        requires
            old(self).wf(outer),
            i32::MIN <= low + high <= i32::MAX,
            i32::MIN <= low - high <= i32::MAX,
        ensures
            final(self).wf(outer),
            (final(self).sig0.history(), final(self).sig1.history(), r.0, r.1) == synthesis_step(
                old(self).sig0.history(),
                old(self).sig1.history(),
                outer,
                low,
                high,
            ),
    {
        proof {
            lemma_coeffs_small();
        }
        let b0 = low + high;
        let b1 = low - high;
        self.sig0.push(b0);
        self.sig1.push(b1);
        let a = self.sig0.conv(&self.coeffs1);
        let b = self.sig1.conv(&self.coeffs0);
        let s0 = clip24(rshift_round(a, self.shift));
        let s1 = clip24(rshift_round(b, self.shift));
        (s0, s1)
    }
}

// ---------------------------------------------------------------------------
// Trees
// ---------------------------------------------------------------------------

/// The histories of a QMF analysis tree.
pub struct QmfAnalysisView {
    pub outer: Seq<i32>,
    pub inner_low: Seq<i32>,
    pub inner_high: Seq<i32>,
}

/// The histories of a QMF synthesis tree (two per stage).
pub struct QmfSynthesisView {
    pub outer0: Seq<i32>,
    pub outer1: Seq<i32>,
    pub inner_low0: Seq<i32>,
    pub inner_low1: Seq<i32>,
    pub inner_high0: Seq<i32>,
    pub inner_high1: Seq<i32>,
}

/// Analysis of 4 PCM samples: the outer stage takes `(x0, x1)` then
/// `(x2, x3)`; the inner-low stage the two outer lows (giving LF, MLF), the
/// inner-high stage the two outer highs (giving MHF, HF).
#[verifier::opaque]
pub open spec fn qmf_analysis_step(v: QmfAnalysisView, x: [i32; 4]) -> (QmfAnalysisView, [i32; 4]) {
    let (o1, lo_a, hi_a) = analysis_step(v.outer, true, x[0], x[1]);
    let (o2, lo_b, hi_b) = analysis_step(o1, true, x[2], x[3]);
    let (il, lf, mlf) = analysis_step(v.inner_low, false, lo_a, lo_b);
    let (ih, mhf, hf) = analysis_step(v.inner_high, false, hi_a, hi_b);
    (QmfAnalysisView { outer: o2, inner_low: il, inner_high: ih }, [lf, mlf, mhf, hf])
}

/// Synthesis of `[LF, MLF, MHF, HF]`: the inner-low stage joins (LF, MLF),
/// the inner-high stage (MHF, HF), and the outer stage each (low, high)
/// pair into two PCM samples.
#[verifier::opaque]
pub open spec fn qmf_synthesis_step(v: QmfSynthesisView, sb: [i32; 4]) -> (QmfSynthesisView, [i32; 4]) {
    let (il0, il1, lo_a, lo_b) = synthesis_step(v.inner_low0, v.inner_low1, false, sb[0], sb[1]);
    let (ih0, ih1, hi_a, hi_b) = synthesis_step(v.inner_high0, v.inner_high1, false, sb[2], sb[3]);
    let (o0a, o1a, s0, s1) = synthesis_step(v.outer0, v.outer1, true, lo_a, hi_a);
    let (o0b, o1b, s2, s3) = synthesis_step(o0a, o1a, true, lo_b, hi_b);
    (
        QmfSynthesisView {
            outer0: o0b,
            outer1: o1b,
            inner_low0: il0,
            inner_low1: il1,
            inner_high0: ih0,
            inner_high1: ih1,
        },
        [s0, s1, s2, s3],
    )
}

/// Subband values that the synthesis butterflies can add and subtract
/// without leaving 32 bits.
pub open spec fn synthesis_input_ok(sb: [i32; 4]) -> bool {
    &&& i32::MIN <= sb[0] + sb[1] <= i32::MAX
    &&& i32::MIN <= sb[0] - sb[1] <= i32::MAX
    &&& i32::MIN <= sb[2] + sb[3] <= i32::MAX
    &&& i32::MIN <= sb[2] - sb[3] <= i32::MAX
}

/// Full QMF analysis tree: 4 PCM samples in, `[LF, MLF, MHF, HF]` out.
#[derive(Clone, Debug)]
pub struct QmfAnalysis {
    outer: AnalysisStage,
    inner_low: AnalysisStage,
    inner_high: AnalysisStage,
}

impl View for QmfAnalysis {
    type V = QmfAnalysisView;

    closed spec fn view(&self) -> QmfAnalysisView {
        QmfAnalysisView {
            outer: self.outer.sig.history(),
            inner_low: self.inner_low.sig.history(),
            inner_high: self.inner_high.sig.history(),
        }
    }
}

impl QmfAnalysis {
    pub closed spec fn wf(&self) -> bool {
        &&& self.outer.wf(true)
        &&& self.inner_low.wf(false)
        &&& self.inner_high.wf(false)
    }

    pub fn new() -> (q: QmfAnalysis)
        ensures
            q.wf(),
            q@ == (QmfAnalysisView {
                outer: zero_history(),
                inner_low: zero_history(),
                inner_high: zero_history(),
            }),
    {
        QmfAnalysis {
            outer: AnalysisStage::new_outer(),
            inner_low: AnalysisStage::new_inner(),
            inner_high: AnalysisStage::new_inner(),
        }
    }

    /// Split 4 input samples into `[LF, MLF, MHF, HF]`.
    pub fn process(&mut self, samples: [i32; 4]) -> (r: [i32; 4])
        requires
            old(self).wf(),
        ensures
            final(self).wf(),
            (final(self)@, r) == qmf_analysis_step(old(self)@, samples),
            forall|i: int| 0 <= i < 4 ==> -0x800000 <= #[trigger] r[i] <= 0x7fffff,
    {
        proof {
            reveal(qmf_analysis_step);
        }
        let (lo_a, hi_a) = self.outer.process(samples[0], samples[1], Ghost(true));
        let (lo_b, hi_b) = self.outer.process(samples[2], samples[3], Ghost(true));
        let (lf, mlf) = self.inner_low.process(lo_a, lo_b, Ghost(false));
        let (mhf, hf) = self.inner_high.process(hi_a, hi_b, Ghost(false));
        [lf, mlf, mhf, hf]
    }
}

impl Default for QmfAnalysis {
    fn default() -> (q: QmfAnalysis)
        ensures
            q.wf(),
            q@ == (QmfAnalysisView {
                outer: zero_history(),
                inner_low: zero_history(),
                inner_high: zero_history(),
            }),
    {
        QmfAnalysis::new()
    }
}

/// Full QMF synthesis tree: `[LF, MLF, MHF, HF]` in, 4 PCM samples out.
#[derive(Clone, Debug)]
pub struct QmfSynthesis {
    outer: SynthesisStage,
    inner_low: SynthesisStage,
    inner_high: SynthesisStage,
}

impl View for QmfSynthesis {
    type V = QmfSynthesisView;

    closed spec fn view(&self) -> QmfSynthesisView {
        QmfSynthesisView {
            outer0: self.outer.sig0.history(),
            outer1: self.outer.sig1.history(),
            inner_low0: self.inner_low.sig0.history(),
            inner_low1: self.inner_low.sig1.history(),
            inner_high0: self.inner_high.sig0.history(),
            inner_high1: self.inner_high.sig1.history(),
        }
    }
}

/// A synthesis tree with all-zero histories.
pub open spec fn silent_synthesis() -> QmfSynthesisView {
    QmfSynthesisView {
        outer0: zero_history(),
        outer1: zero_history(),
        inner_low0: zero_history(),
        inner_low1: zero_history(),
        inner_high0: zero_history(),
        inner_high1: zero_history(),
    }
}

/// An analysis tree with all-zero histories.
pub open spec fn silent_analysis() -> QmfAnalysisView {
    QmfAnalysisView { outer: zero_history(), inner_low: zero_history(), inner_high: zero_history() }
}

impl QmfSynthesis {
    pub closed spec fn wf(&self) -> bool {
        &&& self.outer.wf(true)
        &&& self.inner_low.wf(false)
        &&& self.inner_high.wf(false)
    }

    pub fn new() -> (q: QmfSynthesis)
        ensures
            q.wf(),
            q@ == silent_synthesis(),
    {
        QmfSynthesis {
            outer: SynthesisStage::new_outer(),
            inner_low: SynthesisStage::new_inner(),
            inner_high: SynthesisStage::new_inner(),
        }
    }

    /// Combine `[LF, MLF, MHF, HF]` back into 4 PCM samples.
    pub fn process(&mut self, subbands: [i32; 4]) -> (r: [i32; 4])
        requires
            old(self).wf(),
            synthesis_input_ok(subbands),
        ensures
            final(self).wf(),
            (final(self)@, r) == qmf_synthesis_step(old(self)@, subbands),
    {
        let lf = subbands[0];
        let mlf = subbands[1];
        let mhf = subbands[2];
        let hf = subbands[3];
        proof {
            reveal(qmf_synthesis_step);
        }
        let (lo_a, lo_b) = self.inner_low.process(lf, mlf, Ghost(false));
        let (hi_a, hi_b) = self.inner_high.process(mhf, hf, Ghost(false));
        let (s0, s1) = self.outer.process(lo_a, hi_a, Ghost(true));
        let (s2, s3) = self.outer.process(lo_b, hi_b, Ghost(true));
        [s0, s1, s2, s3]
    }
}

impl Default for QmfSynthesis {
    fn default() -> (q: QmfSynthesis)
        ensures
            q.wf(),
            q@ == silent_synthesis(),
    {
        QmfSynthesis::new()
    }
}

// ---------------------------------------------------------------------------
// Laws
// ---------------------------------------------------------------------------

proof fn lemma_conv_zero(c: [i32; 16], n: int)
    requires
        0 <= n <= 16,
    ensures
        conv_prefix(zero_history(), c, n) == 0,
    decreases n,
{
    if n > 0 {
        lemma_conv_zero(c, n - 1);
        assert(zero_history()[15 - (n - 1)] == 0);
    }
}

proof fn lemma_zero_history_push()
    ensures
        push_spec(zero_history(), 0) == zero_history(),
{
    assert(push_spec(zero_history(), 0) =~= zero_history());
}

proof fn lemma_rshift_round_zero()
    ensures
        rshift_round_spec(0, 21) == 0,
        rshift_round_spec(0, 22) == 0,
        rshift_round_spec(0, 23) == 0,
{
    lemma_pow2_shifts();
}

/// The history of a fresh filter signal after the samples `xs` were pushed
/// in order.
pub open spec fn history_after(xs: Seq<i32>) -> Seq<i32>
    decreases xs.len(),
{
    if xs.len() == 0 {
        zero_history()
    } else {
        push_spec(history_after(xs.drop_last()), xs.last())
    }
}

/// The `k`-th newest of the samples `xs` (`k = 0` is the last one), or 0
/// before the first.
pub open spec fn nth_newest(xs: Seq<i32>, k: int) -> int {
    if 0 <= xs.len() - 1 - k < xs.len() {
        xs[xs.len() - 1 - k] as int
    } else {
        0
    }
}

/// `sum_{k < n} c[k] * nth_newest(xs, k)`.
pub open spec fn newest_first_sum(xs: Seq<i32>, c: [i32; 16], n: int) -> int
    decreases n,
{
    if n <= 0 {
        0
    } else {
        newest_first_sum(xs, c, n - 1) + c[n - 1] * nth_newest(xs, n - 1)
    }
}

/// After pushing `xs`, the history holds the last 16 of them, newest last,
/// with zeros before the first sample.
proof fn lemma_history_after(xs: Seq<i32>)
    ensures
        history_after(xs).len() == 16,
        forall|k: int| 0 <= k < 16 ==> #[trigger] history_after(xs)[15 - k] == nth_newest(xs, k),
    decreases xs.len(),
{
    if xs.len() > 0 {
        let ys = xs.drop_last();
        lemma_history_after(ys);
        assert forall|k: int| 0 <= k < 16 implies #[trigger] history_after(xs)[15 - k] == nth_newest(xs, k) by {
            if k > 0 {
                assert(history_after(ys)[15 - (k - 1)] == nth_newest(ys, k - 1));
            }
        }
    }
}

/// The convolution of a fresh filter signal fed the samples `xs`: tap `k`
/// multiplies the `k`-th newest sample, with zeros before the first.
pub proof fn lemma_conv_of_pushes(xs: Seq<i32>, c: [i32; 16])
    ensures
        conv_spec(history_after(xs), c) == newest_first_sum(xs, c, 16),
{
    lemma_history_after(xs);
    let h = history_after(xs);
    assert forall|n: int| 0 <= n <= 16 implies #[trigger] conv_prefix(h, c, n) == newest_first_sum(xs, c, n) by {
        lemma_conv_prefix_eq(h, xs, c, n);
    }
    assert(conv_prefix(h, c, 16) == newest_first_sum(xs, c, 16));
}

proof fn lemma_conv_prefix_eq(h: Seq<i32>, xs: Seq<i32>, c: [i32; 16], n: int)
    requires
        0 <= n <= 16,
        h.len() == 16,
        forall|k: int| 0 <= k < 16 ==> #[trigger] h[15 - k] == nth_newest(xs, k),
    ensures
        conv_prefix(h, c, n) == newest_first_sum(xs, c, n),
    decreases n,
{
    if n > 0 {
        lemma_conv_prefix_eq(h, xs, c, n - 1);
        assert(h[15 - (n - 1)] == nth_newest(xs, n - 1));
    }
}

/// Band order of the analysis tree. The outer stage filters `(x0, x1)` then
/// `(x2, x3)` into rounded sums (lows) and differences (highs); LF and MLF
/// are the rounded sum and difference of the inner-low stage on the two
/// outer lows, MHF and HF the rounded sum and difference of the inner-high
/// stage on the two outer highs.
pub proof fn lemma_analysis_bands(v: QmfAnalysisView, x: [i32; 4])
    ensures
        ({
            let h1 = push_spec(push_spec(v.outer, x[0]), x[1]);
            let h2 = push_spec(push_spec(h1, x[2]), x[3]);
            let lo_a = clip24_spec(rshift_round_spec(conv_spec(h1, OUTER_COEFFS_0) + conv_spec(h1, OUTER_COEFFS_1), 23)) as i32;
            let hi_a = clip24_spec(rshift_round_spec(conv_spec(h1, OUTER_COEFFS_0) - conv_spec(h1, OUTER_COEFFS_1), 23)) as i32;
            let lo_b = clip24_spec(rshift_round_spec(conv_spec(h2, OUTER_COEFFS_0) + conv_spec(h2, OUTER_COEFFS_1), 23)) as i32;
            let hi_b = clip24_spec(rshift_round_spec(conv_spec(h2, OUTER_COEFFS_0) - conv_spec(h2, OUTER_COEFFS_1), 23)) as i32;
            let hl = push_spec(push_spec(v.inner_low, lo_a), lo_b);
            let hh = push_spec(push_spec(v.inner_high, hi_a), hi_b);
            let (w, r) = qmf_analysis_step(v, x);
            &&& r[0] == clip24_spec(rshift_round_spec(conv_spec(hl, INNER_COEFFS_0) + conv_spec(hl, INNER_COEFFS_1), 23))
            &&& r[1] == clip24_spec(rshift_round_spec(conv_spec(hl, INNER_COEFFS_0) - conv_spec(hl, INNER_COEFFS_1), 23))
            &&& r[2] == clip24_spec(rshift_round_spec(conv_spec(hh, INNER_COEFFS_0) + conv_spec(hh, INNER_COEFFS_1), 23))
            &&& r[3] == clip24_spec(rshift_round_spec(conv_spec(hh, INNER_COEFFS_0) - conv_spec(hh, INNER_COEFFS_1), 23))
            &&& w == (QmfAnalysisView { outer: h2, inner_low: hl, inner_high: hh })
        }),
{
    reveal(qmf_analysis_step);
    lemma_clip24_i32_all();
}

/// Band order of the synthesis tree. The inner-low stage joins LF and MLF
/// (pushing their sum and difference), the inner-high stage MHF and HF;
/// the outer stage joins the first low/high pair into output samples 0 and
/// 1, then the second pair into samples 2 and 3.
pub proof fn lemma_synthesis_bands(v: QmfSynthesisView, sb: [i32; 4])
    ensures
        ({
            let l0 = push_spec(v.inner_low0, (sb[0] + sb[1]) as i32);
            let l1 = push_spec(v.inner_low1, (sb[0] - sb[1]) as i32);
            let g0 = push_spec(v.inner_high0, (sb[2] + sb[3]) as i32);
            let g1 = push_spec(v.inner_high1, (sb[2] - sb[3]) as i32);
            let lo_a = clip24_spec(rshift_round_spec(conv_spec(l0, INNER_COEFFS_1), 22)) as i32;
            let lo_b = clip24_spec(rshift_round_spec(conv_spec(l1, INNER_COEFFS_0), 22)) as i32;
            let hi_a = clip24_spec(rshift_round_spec(conv_spec(g0, INNER_COEFFS_1), 22)) as i32;
            let hi_b = clip24_spec(rshift_round_spec(conv_spec(g1, INNER_COEFFS_0), 22)) as i32;
            let m0 = push_spec(v.outer0, (lo_a + hi_a) as i32);
            let m1 = push_spec(v.outer1, (lo_a - hi_a) as i32);
            let n0 = push_spec(m0, (lo_b + hi_b) as i32);
            let n1 = push_spec(m1, (lo_b - hi_b) as i32);
            let r = qmf_synthesis_step(v, sb).1;
            &&& r[0] == clip24_spec(rshift_round_spec(conv_spec(m0, OUTER_COEFFS_1), 21))
            &&& r[1] == clip24_spec(rshift_round_spec(conv_spec(m1, OUTER_COEFFS_0), 21))
            &&& r[2] == clip24_spec(rshift_round_spec(conv_spec(n0, OUTER_COEFFS_1), 21))
            &&& r[3] == clip24_spec(rshift_round_spec(conv_spec(n1, OUTER_COEFFS_0), 21))
        }),
{
    reveal(qmf_synthesis_step);
    lemma_clip24_i32_all();
}

proof fn lemma_clip24_i32_all()
    ensures
        forall|v: int| #![trigger clip24_spec(v)] (clip24_spec(v) as i32) as int == clip24_spec(v),
{
}

/// Silence in, silence out: an analysis tree whose histories are all zero
/// maps four zero samples to four zero subbands and stays silent.
pub proof fn lemma_analysis_silence()
    ensures
        qmf_analysis_step(silent_analysis(), [0i32, 0, 0, 0]) == (silent_analysis(), [0i32, 0, 0, 0]),
{
    lemma_zero_history_push();
    lemma_conv_zero(OUTER_COEFFS_0, 16);
    lemma_conv_zero(OUTER_COEFFS_1, 16);
    lemma_conv_zero(INNER_COEFFS_0, 16);
    lemma_conv_zero(INNER_COEFFS_1, 16);
    lemma_rshift_round_zero();
    reveal(qmf_analysis_step);
    assert(qmf_analysis_step(silent_analysis(), [0i32, 0, 0, 0]).1 =~= [0i32, 0, 0, 0]);
}

/// Silence in, silence out: a synthesis tree whose histories are all zero
/// maps four zero subbands to four zero samples and stays silent.
pub proof fn lemma_synthesis_silence()
    ensures
        qmf_synthesis_step(silent_synthesis(), [0i32, 0, 0, 0]) == (silent_synthesis(), [0i32, 0, 0, 0]),
{
    lemma_zero_history_push();
    lemma_conv_zero(OUTER_COEFFS_0, 16);
    lemma_conv_zero(OUTER_COEFFS_1, 16);
    lemma_conv_zero(INNER_COEFFS_0, 16);
    lemma_conv_zero(INNER_COEFFS_1, 16);
    lemma_rshift_round_zero();
    reveal(qmf_synthesis_step);
    assert(qmf_synthesis_step(silent_synthesis(), [0i32, 0, 0, 0]).1 =~= [0i32, 0, 0, 0]);
}

/// Sum of the 16 taps of a filter set.
pub open spec fn tap_sum(c: [i32; 16], n: int) -> int
    decreases n,
{
    if n <= 0 {
        0
    } else {
        tap_sum(c, n - 1) + c[n - 1]
    }
}

/// Set 1 of each stage is set 0 reversed, so both sets have the same DC sum.
pub proof fn lemma_filter_sets_mirror()
    ensures
        forall|k: int| 0 <= k < 16 ==> #[trigger] OUTER_COEFFS_1[k] == OUTER_COEFFS_0[15 - k],
        forall|k: int| 0 <= k < 16 ==> #[trigger] INNER_COEFFS_1[k] == INNER_COEFFS_0[15 - k],
        tap_sum(OUTER_COEFFS_0, 16) == tap_sum(OUTER_COEFFS_1, 16),
        tap_sum(INNER_COEFFS_0, 16) == tap_sum(INNER_COEFFS_1, 16),
{
    reveal_with_fuel(tap_sum, 17);
    assert(tap_sum(OUTER_COEFFS_0, 16) == 2965693);
    assert(tap_sum(OUTER_COEFFS_1, 16) == 2965693);
    assert(tap_sum(INNER_COEFFS_0, 16) == 4194128);
    assert(tap_sum(INNER_COEFFS_1, 16) == 4194128);
}

} // verus!
