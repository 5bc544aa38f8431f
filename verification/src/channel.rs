//! Per-channel state: four subband ADPCM states, the dither generator and
//! the QMF tree (analysis on the encoder side, synthesis on the decoder
//! side), with the per-block ADPCM steps that encoder and decoder share.

use vstd::prelude::*;
use crate::dither::{DitherGen, DitherView};
use crate::qmf::{QmfAnalysis, QmfAnalysisView, QmfSynthesis, QmfSynthesisView, silent_analysis, silent_synthesis};
use crate::subband::{SubbandState, SubbandView, initial_subband_view};
use crate::tables::{Subband, Variant, subband_at};

verus! {

/// The four subband states of a channel are well formed, belong to the
/// variant, and sit at their subband's position.
pub open spec fn bands_wf(bands: &[SubbandState; 4], variant: Variant) -> bool {
    forall|i: int|
        0 <= i < 4 ==> {
            &&& (#[trigger] bands[i]).wf()
            &&& bands[i].variant == variant
            &&& bands[i].subband == subband_at(i)
        }
}

/// Four subband views keep their bounds, belong to the variant, and sit at
/// their subband's position.
pub open spec fn bands_ok(bands: Seq<SubbandView>, variant: Variant) -> bool {
    &&& bands.len() == 4
    &&& forall|i: int|
        0 <= i < 4 ==> {
            &&& (#[trigger] bands[i]).inv()
            &&& bands[i].variant == variant
            &&& bands[i].subband == subband_at(i)
        }
}

/// The views of a channel's four subband states.
pub open spec fn bands_view(bands: &[SubbandState; 4]) -> Seq<SubbandView> {
    Seq::new(4, |i: int| bands[i]@)
}

/// The views of four fresh subband states.
pub open spec fn initial_bands(variant: Variant) -> Seq<SubbandView> {
    Seq::new(4, |i: int| initial_subband_view(variant, subband_at(i)))
}

/// Codeword and quantization error of each band for the subband samples
/// `sb`: band `i` quantizes `sb[i]` minus its prediction.
#[verifier::opaque]
pub open spec fn quantize_bands(bands: Seq<SubbandView>, sb: [i32; 4]) -> ([i32; 4], [i32; 4]) {
    let q0 = bands[0].quantized((sb[0] - bands[0].predicted()) as i32);
    let q1 = bands[1].quantized((sb[1] - bands[1].predicted()) as i32);
    let q2 = bands[2].quantized((sb[2] - bands[2].predicted()) as i32);
    let q3 = bands[3].quantized((sb[3] - bands[3].predicted()) as i32);
    ([q0.0, q1.0, q2.0, q3.0], [q0.1, q1.1, q2.1, q3.1])
}

/// One band's reconstruction: the predicted sample plus the inverse-quantized
/// codeword, and the band's state after the update.
#[verifier::opaque]
pub open spec fn reconstruct_band(v: SubbandView, cw: i32, dither: i32) -> (SubbandView, i32) {
    let pred = v.predicted();
    let rd = v.inverse_quantized(cw, dither);
    let rs = (pred + rd) as i32;
    (v.updated(cw, rd, rs), rs)
}

/// The bands after reconstructing codewords `cws` under dithers `dith`.
pub open spec fn reconstructed_bands(bands: Seq<SubbandView>, cws: [i32; 4], dith: [i32; 4]) -> Seq<
    SubbandView,
> {
    Seq::new(4, |i: int| reconstruct_band(bands[i], cws[i], dith[i]).0)
}

/// The reconstructed subband samples of codewords `cws` under dithers `dith`.
pub open spec fn reconstructed_samples(bands: Seq<SubbandView>, cws: [i32; 4], dith: [i32; 4]) -> [i32; 4] {
    [
        reconstruct_band(bands[0], cws[0], dith[0]).1,
        reconstruct_band(bands[1], cws[1], dith[1]).1,
        reconstruct_band(bands[2], cws[2], dith[2]).1,
        reconstruct_band(bands[3], cws[3], dith[3]).1,
    ]
}

/// Each band works on its own: band `i`'s codeword and error are those of
/// quantizing `sb[i]` minus band `i`'s prediction, and band `i`'s
/// reconstruction is its prediction plus its inverse-quantized codeword under
/// its own dither; so changing another band's input leaves band `i` alone.
pub proof fn lemma_bands_separate(bands: Seq<SubbandView>, sb: [i32; 4], cws: [i32; 4], dith: [i32; 4], i: int)
    requires
        0 <= i < 4,
    ensures
        quantize_bands(bands, sb).0[i] == bands[i].quantized((sb[i] - bands[i].predicted()) as i32).0,
        quantize_bands(bands, sb).1[i] == bands[i].quantized((sb[i] - bands[i].predicted()) as i32).1,
        reconstructed_samples(bands, cws, dith)[i] == (bands[i].predicted() + bands[i].inverse_quantized(
            cws[i],
            dith[i],
        )) as i32,
        reconstructed_bands(bands, cws, dith)[i] == bands[i].updated(
            cws[i],
            bands[i].inverse_quantized(cws[i], dith[i]),
            (bands[i].predicted() + bands[i].inverse_quantized(cws[i], dith[i])) as i32,
        ),
{
    reveal(quantize_bands);
    reveal(reconstruct_band);
}

/// Quantize the four subband samples of a channel against its predictors.
pub fn quantize_channel(bands: &[SubbandState; 4], variant: Variant, sb: [i32; 4]) -> (r: ([i32; 4], [i32; 4]))
    requires
        bands_wf(bands, variant),
        forall|i: int| 0 <= i < 4 ==> -0x800000 <= #[trigger] sb[i] <= 0x7fffff,
    ensures
        r == quantize_bands(bands_view(bands), sb),
        forall|i: int| 0 <= i < 4 ==> -bands[i]@.max_magnitude() <= #[trigger] r.0[i] <= bands[i]@.max_magnitude(),
        forall|i: int| 0 <= i < 4 ==> -255 <= #[trigger] r.0[i] <= 255,
{
    proof {
        vstd::arithmetic::power2::lemma2_to64();
    }
    let mut cws = [0i32; 4];
    let mut errs = [0i32; 4];
    let mut b: usize = 0;
    while b < 4
        invariant
            b <= 4,
            bands_wf(bands, variant),
            forall|i: int| 0 <= i < 4 ==> -0x800000 <= #[trigger] sb[i] <= 0x7fffff,
            forall|i: int|
                0 <= i < b ==> (cws[i], errs[i]) == (#[trigger] bands[i]@).quantized(
                    (sb[i] - bands[i]@.predicted()) as i32,
                ),
            forall|i: int| 0 <= i < b ==> -bands[i]@.max_magnitude() <= #[trigger] cws[i] <= bands[i]@.max_magnitude(),
            forall|i: int| 0 <= i < b ==> -255 <= #[trigger] cws[i] <= 255,
        decreases 4 - b,
    {
        assert(bands[b as int].wf());
        let predicted = bands[b].predict();
        let diff = sb[b] - predicted;
        proof {
            crate::subband::lemma_quantized_in_range(bands[b as int]@, diff);
        }
        let (cw, err) = bands[b].quantize(diff);
        cws[b] = cw;
        errs[b] = err;
        b = b + 1;
    }
    proof {
        reveal(quantize_bands);
        assert((cws, errs) == quantize_bands(bands_view(bands), sb));
    }
    (cws, errs)
}

/// Reconstruct each band from its codeword and dither, update the band
/// states, and return the reconstructed subband samples.
#[verifier::spinoff_prover]
#[verifier::rlimit(40)]
pub fn reconstruct_channel(
    bands: &mut [SubbandState; 4],
    variant: Variant,
    cws: [i32; 4],
    dith: [i32; 4],
) -> (r: [i32; 4])
    requires
        bands_wf(old(bands), variant),
    ensures
        bands_wf(final(bands), variant),
        bands_view(final(bands)) == reconstructed_bands(bands_view(old(bands)), cws, dith),
        r == reconstructed_samples(bands_view(old(bands)), cws, dith),
        forall|i: int| 0 <= i < 4 ==> -0x20800000 <= #[trigger] r[i] <= 0x20800000,
{
    let ghost old_bands = bands_view(bands);
    proof {
        reveal(reconstruct_band);
    }
    let mut out = [0i32; 4];
    let mut b: usize = 0;
    while b < 4
        invariant
            b <= 4,
            bands_wf(bands, variant),
            old_bands.len() == 4,
            forall|i: int| 0 <= i < b ==> (#[trigger] bands[i])@ == reconstruct_band(old_bands[i], cws[i], dith[i]).0,
            forall|i: int| 0 <= i < b ==> #[trigger] out[i] == reconstruct_band(old_bands[i], cws[i], dith[i]).1,
            forall|i: int| 0 <= i < b ==> -0x20800000 <= #[trigger] out[i] <= 0x20800000,
            forall|i: int| b <= i < 4 ==> (#[trigger] bands[i])@ == old_bands[i],
        decreases 4 - b,
    {
        assert(bands[b as int].wf());
        let predicted = bands[b].predict();
        let recon_diff = bands[b].invert_quantize(cws[b], dith[b]);
        let recon_sample = predicted + recon_diff;
        bands[b].update_state(cws[b], recon_diff, recon_sample);
        out[b] = recon_sample;
        proof {
            reveal(reconstruct_band);
        }
        b = b + 1;
    }
    proof {
        assert(bands_view(bands) =~= reconstructed_bands(old_bands, cws, dith));
        assert(out =~= reconstructed_samples(old_bands, cws, dith));
    }
    out
}

/// Four fresh subband states for the variant.
fn new_bands(variant: Variant) -> (bands: [SubbandState; 4])
    ensures
        bands_wf(&bands, variant),
        bands_view(&bands) == initial_bands(variant),
{
    let bands = [
        SubbandState::new(variant, Subband::Lf),
        SubbandState::new(variant, Subband::Mlf),
        SubbandState::new(variant, Subband::Mhf),
        SubbandState::new(variant, Subband::Hf),
    ];
    proof {
        assert(bands_view(&bands) =~= initial_bands(variant));
    }
    bands
}

/// The abstract state of an encoder channel.
pub struct EncoderChannelView {
    pub bands: Seq<SubbandView>,
    pub qmf: QmfAnalysisView,
    pub dither: DitherView,
}

/// The abstract state of a decoder channel.
pub struct DecoderChannelView {
    pub bands: Seq<SubbandView>,
    pub qmf: QmfSynthesisView,
    pub dither: DitherView,
}

/// A fresh encoder channel.
pub open spec fn initial_encoder_channel(variant: Variant) -> EncoderChannelView {
    EncoderChannelView {
        bands: initial_bands(variant),
        qmf: silent_analysis(),
        dither: DitherView { history: 0, parity: 0 },
    }
}

/// A fresh decoder channel.
pub open spec fn initial_decoder_channel(variant: Variant) -> DecoderChannelView {
    DecoderChannelView {
        bands: initial_bands(variant),
        qmf: silent_synthesis(),
        dither: DitherView { history: 0, parity: 0 },
    }
}

#[derive(Clone, Debug)]
pub struct EncoderChannel {
    pub variant: Variant,
    pub bands: [SubbandState; 4],
    pub qmf: QmfAnalysis,
    pub dither: DitherGen,
}

impl View for EncoderChannel {
    type V = EncoderChannelView;

    open spec fn view(&self) -> EncoderChannelView {
        EncoderChannelView { bands: bands_view(&self.bands), qmf: self.qmf@, dither: self.dither@ }
    }
}

impl EncoderChannel {
    pub open spec fn wf(&self) -> bool {
        &&& bands_wf(&self.bands, self.variant)
        &&& self.qmf.wf()
    }

    pub fn new(variant: Variant) -> (c: EncoderChannel)
        ensures
            c.wf(),
            c.variant == variant,
            c@ == initial_encoder_channel(variant),
    {
        EncoderChannel {
            variant,
            bands: new_bands(variant),
            qmf: QmfAnalysis::new(),
            dither: DitherGen::new(),
        }
    }
}

#[derive(Clone, Debug)]
pub struct DecoderChannel {
    pub variant: Variant,
    pub bands: [SubbandState; 4],
    pub qmf: QmfSynthesis,
    pub dither: DitherGen,
}

impl View for DecoderChannel {
    type V = DecoderChannelView;

    open spec fn view(&self) -> DecoderChannelView {
        DecoderChannelView { bands: bands_view(&self.bands), qmf: self.qmf@, dither: self.dither@ }
    }
}

impl DecoderChannel {
    pub open spec fn wf(&self) -> bool {
        &&& bands_wf(&self.bands, self.variant)
        &&& self.qmf.wf()
    }

    pub fn new(variant: Variant) -> (c: DecoderChannel)
        ensures
            c.wf(),
            c.variant == variant,
            c@ == initial_decoder_channel(variant),
    {
        DecoderChannel {
            variant,
            bands: new_bands(variant),
            qmf: QmfSynthesis::new(),
            dither: DitherGen::new(),
        }
    }
}

} // verus!
