//! aptX decoder (classic and HD).
//!
//! Per stereo block (4 or 6 bytes):
//!
//! 1. Read both big-endian channel codewords and split each into its four
//!    signed subband codewords.
//! 2. Draw the block's dither from each channel's codeword history.
//! 3. Check the 8-block parity sync; a mismatch is counted (playback goes on).
//! 4. Per subband: predict, inverse-quantize, reconstruct the subband
//!    sample and update the predictor / step size.
//! 5. QMF synthesis per channel, then scale down by 2^8 and clip to 16 bits.

use vstd::prelude::*;
use std::collections::VecDeque;
use crate::channel::{
    DecoderChannel, DecoderChannelView, initial_decoder_channel, reconstruct_channel,
    reconstructed_bands, reconstructed_samples, bands_ok, initial_bands, initial_encoder_channel,
    quantize_bands, reconstruct_band,
};
use crate::encoder::{
    ConfigError, is_supported_sample_rate, supported_sample_rate, variant_from_codec_id,
    variant_of_codec_id, EncoderCoreView, encode_block_spec, encode_blocks_spec, encoded_codewords, parity_adjusted,
    first_min_index, flip_codeword, next_encoder_channel, lemma_encode_block_size,
    lemma_encode_blocks_size, error_at, promoted, lemma_encode_blocks_prefix,
};
use crate::codeword::{
    pack_channel_spec, pack_block_spec, codewords_fit, lemma_channel_roundtrip,
    lemma_block_roundtrip, lemma_parity_flip, codeword_at, with_codeword, band_bits, fits_signed,
};
use crate::subband::{lemma_quantized_in_range, lemma_updated_inv, lemma_initial_inv};
use crate::tables::subband_at;
use vstd::arithmetic::power2::{pow2, lemma2_to64};
use crate::codeword::{
    block_parity, block_parity_spec, parity_required, unpack_block, unpack_block_spec,
    unpack_channel, unpack_channel_spec,
};
use crate::dither::{DitherView, block_dither, block_parity_bit, ingested, lfsr_steps};
use crate::qmf::{QmfSynthesisView, qmf_analysis_step, qmf_synthesis_step};
use crate::tables::Variant;

verus! {

/// The outcome of checking a decoder configuration: the sample rate
/// defaults to 44 100 Hz and the channel count to 2; the sample rate is
/// checked first, then the channel count, then the codec id. An accepted
/// configuration is the variant and the sample rate.
pub open spec fn decoder_config_spec(
    sample_rate: Option<u32>,
    channels: Option<u16>,
    codec_id: Seq<char>,
) -> Result<(Variant, u32), ConfigError> {
    let sr = match sample_rate {
        Some(r) => r,
        None => 44_100u32,
    };
    let ch = match channels {
        Some(c) => c,
        None => 2u16,
    };
    if !supported_sample_rate(sr) {
        Err(ConfigError::UnsupportedSampleRate(sr))
    } else if ch != 2 {
        Err(ConfigError::UnsupportedChannels(ch))
    } else {
        match variant_of_codec_id(codec_id) {
            Some(v) => Ok((v, sr)),
            None => Err(ConfigError::UnknownCodecId),
        }
    }
}

/// Check a decoder configuration (the decisions of building a decoder).
pub fn decoder_config(sample_rate: Option<u32>, channels: Option<u16>, codec_id: &str) -> (r: Result<
    (Variant, u32),
    ConfigError,
>)
    ensures
        r == decoder_config_spec(sample_rate, channels, codec_id@),
{
    let sr = match sample_rate {
        Some(r) => r,
        None => 44_100,
    };
    if !is_supported_sample_rate(sr) {
        return Err(ConfigError::UnsupportedSampleRate(sr));
    }
    let ch = match channels {
        Some(c) => c,
        None => 2,
    };
    if ch != 2 {
        return Err(ConfigError::UnsupportedChannels(ch));
    }
    match variant_from_codec_id(codec_id) {
        Some(v) => Ok((v, sr)),
        None => Err(ConfigError::UnknownCodecId),
    }
}

/// The decoder state that block decoding reads and writes.
pub struct DecoderCoreView {
    pub left: DecoderChannelView,
    pub right: DecoderChannelView,
    pub sync_idx: u8,
    pub parity_errors: u64,
}

/// A synthesized sample scaled back down by 2^8 and clipped to 16 bits.
pub open spec fn output_sample(x: i32) -> i16 {
    let v = x as int / 256;
    (if v < -32768 {
        -32768
    } else if v > 32767 {
        32767
    } else {
        v
    }) as i16
}

/// A decoded sample is the 24-bit synthesis output scaled down by 2^8
/// (rounding towards minus infinity) and saturated to 16 bits: every
/// value `v * 256 + r` with `0 <= r < 256` gives `v` when `v` is a 16-bit
/// value, and values beyond the 16-bit range saturate.
pub proof fn lemma_output_sample_scale(x: i32)
    ensures
        forall|v: int, r: int|
            #![trigger v * 256 + r]
            -32768 <= v <= 32767 && 0 <= r < 256 && x == v * 256 + r ==> output_sample(x) == v,
        x >= 32768 * 256 ==> output_sample(x) == 32767,
        x < -32768 * 256 ==> output_sample(x) == -32768,
{
    assert forall|v: int, r: int|
        #![trigger v * 256 + r]
        -32768 <= v <= 32767 && 0 <= r < 256 && x == v * 256 + r implies output_sample(x) == v by {
        assert(x as int / 256 == v);
    }
}

#[verifier::opaque]
/// The decoder channel after a block: new QMF state, the dither history
/// after the draw and the ingestion of its LF/MLF/MHF codewords, updated bands.
pub open spec fn next_decoder_channel(
    ch: DecoderChannelView,
    qmf: QmfSynthesisView,
    cws: [i32; 4],
) -> DecoderChannelView {
    let h = ch.dither.history;
    DecoderChannelView {
        bands: reconstructed_bands(ch.bands, cws, block_dither(h)),
        qmf,
        dither: DitherView {
            history: ingested(lfsr_steps(h, 4), cws[0], cws[1], cws[2]),
            parity: block_parity_bit(h),
        },
    }
}

/// The codewords a block carries, per channel.
pub open spec fn block_codewords(variant: Variant, l: u32, r: u32) -> [[i32; 4]; 2] {
    [unpack_channel_spec(variant, l), unpack_channel_spec(variant, r)]
}

/// Whether a block's parity matches the one required at `s`'s position of
/// the sync cycle.
pub open spec fn parity_ok(s: DecoderCoreView, cws: [[i32; 4]; 2]) -> bool {
    block_parity_spec(
        cws,
        block_parity_bit(s.left.dither.history),
        block_parity_bit(s.right.dither.history),
    ) == parity_required(s.sync_idx)
}

/// One block of decoding from the front of `bytes`: the next decoder state
/// and the 8 interleaved output samples (nothing when no whole block is there).
#[verifier::opaque]
pub open spec fn decode_block_spec(variant: Variant, s: DecoderCoreView, bytes: Seq<u8>) -> (
    DecoderCoreView,
    Seq<i16>,
) {
    match unpack_block_spec(variant, bytes) {
        None => (s, Seq::empty()),
        Some((l, r)) => {
            let cws = block_codewords(variant, l, r);
            let hl = s.left.dither.history;
            let hr = s.right.dither.history;
            let sbl = reconstructed_samples(s.left.bands, cws[0], block_dither(hl));
            let sbr = reconstructed_samples(s.right.bands, cws[1], block_dither(hr));
            let (ql, pl) = qmf_synthesis_step(s.left.qmf, sbl);
            let (qr, pr) = qmf_synthesis_step(s.right.qmf, sbr);
            (
                DecoderCoreView {
                    left: next_decoder_channel(s.left, ql, cws[0]),
                    right: next_decoder_channel(s.right, qr, cws[1]),
                    sync_idx: ((s.sync_idx + 1) % 8) as u8,
                    parity_errors: if parity_ok(s, cws) {
                        s.parity_errors
                    } else if s.parity_errors == u64::MAX {
                        u64::MAX
                    } else {
                        (s.parity_errors + 1) as u64
                    },
                },
                seq![
                    output_sample(pl[0]),
                    output_sample(pr[0]),
                    output_sample(pl[1]),
                    output_sample(pr[1]),
                    output_sample(pl[2]),
                    output_sample(pr[2]),
                    output_sample(pl[3]),
                    output_sample(pr[3]),
                ],
            )
        },
    }
}

/// Decoding the first `n` whole blocks of `bytes`: the state after them and
/// their output samples, block after block.
pub open spec fn decode_blocks_spec(variant: Variant, s: DecoderCoreView, bytes: Seq<u8>, n: nat) -> (
    DecoderCoreView,
    Seq<i16>,
)
    decreases n,
{
    if n == 0 {
        (s, Seq::empty())
    } else {
        let bs = variant.spec_block_bytes() as int;
        let (s1, o1) = decode_blocks_spec(variant, s, bytes, (n - 1) as nat);
        let (s2, o2) = decode_block_spec(variant, s1, bytes.subrange(bs * (n - 1), bs * n));
        (s2, o1 + o2)
    }
}

/// The little-endian bytes of interleaved 16-bit samples.
pub open spec fn le_bytes(samples: Seq<i16>) -> Seq<u8> {
    Seq::new(
        2 * samples.len(),
        |k: int|
            if k % 2 == 0 {
                (samples[k / 2] as int % 256) as u8
            } else {
                ((samples[k / 2] as int / 256) % 256) as u8
            },
    )
}

/// A frame of decoded PCM: interleaved signed 16-bit little-endian stereo.
pub struct DecodedFrame {
    /// Samples per channel.
    pub samples: u32,
    pub pts: Option<i64>,
    pub data: Vec<u8>,
}

/// The contents of a decoded frame.
pub struct DecodedFrameView {
    pub samples: u32,
    pub pts: Option<i64>,
    pub data: Seq<u8>,
}

impl View for DecodedFrame {
    type V = DecodedFrameView;

    open spec fn view(&self) -> DecodedFrameView {
        DecodedFrameView { samples: self.samples, pts: self.pts, data: self.data@ }
    }
}

/// Why no frame is available.
#[derive(Debug, Clone, Copy, PartialEq, Eq, Structural)]
pub enum ReceiveStatus {
    /// Feed more packets.
    NeedMore,
    /// The stream was flushed and every frame has been received.
    Eof,
}

/// The aptX decoder: per-channel codec state, the sync position, the bytes
/// carried over between packets and the queue of decoded frames.
pub struct AptxDecoder {
    variant: Variant,
    sample_rate: u32,
    channels: [DecoderChannel; 2],
    sync_idx: u8,
    carry: Vec<u8>,
    pending: VecDeque<DecodedFrame>,
    drained: bool,
    next_pts: i64,
    parity_errors: u64,
}

/// The timestamp of the next frame: the packet's, else the running one.
pub open spec fn frame_pts(pts: Option<i64>, next_pts: i64) -> i64 {
    match pts {
        Some(p) => p,
        None => next_pts,
    }
}

impl AptxDecoder {
    pub closed spec fn block_state(&self) -> DecoderCoreView {
        DecoderCoreView {
            left: self.channels[0]@,
            right: self.channels[1]@,
            sync_idx: self.sync_idx,
            parity_errors: self.parity_errors,
        }
    }

    pub closed spec fn spec_variant(&self) -> Variant {
        self.variant
    }

    pub closed spec fn spec_sample_rate(&self) -> u32 {
        self.sample_rate
    }

    /// Bytes waiting for a whole block.
    pub closed spec fn carried(&self) -> Seq<u8> {
        self.carry@
    }

    /// Decoded frames not yet received.
    pub closed spec fn queued(&self) -> Seq<DecodedFrameView> {
        self.pending@.map_values(|f: DecodedFrame| f@)
    }

    pub closed spec fn is_drained(&self) -> bool {
        self.drained
    }

    pub closed spec fn spec_next_pts(&self) -> i64 {
        self.next_pts
    }

    pub closed spec fn wf(&self) -> bool {
        &&& self.channels[0].wf()
        &&& self.channels[1].wf()
        &&& self.channels[0].variant == self.variant
        &&& self.channels[1].variant == self.variant
        &&& self.sync_idx < 8
        &&& self.carry@.len() < self.variant.spec_block_bytes()
    }

    pub fn new(variant: Variant, sample_rate: u32) -> (d: AptxDecoder)
        ensures
            d.wf(),
            d.spec_variant() == variant,
            d.spec_sample_rate() == sample_rate,
            d.block_state() == (DecoderCoreView {
                left: initial_decoder_channel(variant),
                right: initial_decoder_channel(variant),
                sync_idx: 0,
                parity_errors: 0,
            }),
            d.carried() == Seq::<u8>::empty(),
            d.queued() == Seq::<DecodedFrameView>::empty(),
            !d.is_drained(),
            d.spec_next_pts() == 0,
    {
        let d = AptxDecoder {
            variant,
            sample_rate,
            channels: [DecoderChannel::new(variant), DecoderChannel::new(variant)],
            sync_idx: 0,
            carry: Vec::new(),
            pending: VecDeque::new(),
            drained: false,
            next_pts: 0,
            parity_errors: 0,
        };
        proof {
            assert(d.queued() =~= Seq::<DecodedFrameView>::empty());
        }
        d
    }

    pub fn variant(&self) -> (v: Variant)
        ensures
            v == self.spec_variant(),
    {
        self.variant
    }

    pub fn sample_rate(&self) -> (r: u32)
        ensures
            r == self.spec_sample_rate(),
    {
        self.sample_rate
    }

    /// Timestamp the next frame takes when its packet carries none.
    pub fn next_pts(&self) -> (p: i64)
        ensures
            p == self.spec_next_pts(),
    {
        self.next_pts
    }

    /// Number of bytes waiting for a whole block.
    pub fn carried_len(&self) -> (n: usize)
        ensures
            n == self.carried().len(),
    {
        self.carry.len()
    }

    /// Number of parity errors seen: non-zero means the input lost block
    /// alignment.
    pub fn parity_errors(&self) -> (n: u64)
        ensures
            n == self.block_state().parity_errors,
    {
        self.parity_errors
    }

    /// Decode one block from the front of `bytes` into 8 interleaved samples
    /// appended to `out`.
    #[verifier::spinoff_prover]
    #[verifier::rlimit(40)]
    fn decode_block(&mut self, bytes: &[u8], out: &mut Vec<i16>)
        requires
            old(self).wf(),
        ensures
            final(self).wf(),
            final(self).block_state() == decode_block_spec(old(self).variant, old(self).block_state(), bytes@).0,
            final(out)@ == old(out)@ + decode_block_spec(old(self).variant, old(self).block_state(), bytes@).1,
            final(self).variant == old(self).variant,
            final(self).sample_rate == old(self).sample_rate,
            final(self).carry == old(self).carry,
            final(self).pending == old(self).pending,
            final(self).drained == old(self).drained,
            final(self).next_pts == old(self).next_pts,
    {
        let ghost s0 = self.block_state();
        let (left_packed, right_packed) = match unpack_block(self.variant, bytes) {
            Some(p) => p,
            None => {
                proof {
                    reveal(decode_block_spec);
                    assert(out@ =~= old(out)@ + Seq::<i16>::empty());
                }
                return;
            },
        };
        let cw_left = unpack_channel(self.variant, left_packed);
        let cw_right = unpack_channel(self.variant, right_packed);
        let codewords = [cw_left, cw_right];

        let (dith_left, parity_left) = self.channels[0].dither.next_block();
        let (dith_right, parity_right) = self.channels[1].dither.next_block();

        // Verify the parity sync before touching the predictors.
        let observed = block_parity(&codewords, parity_left, parity_right);
        let required: u8 = if self.sync_idx == 7 {
            1
        } else {
            0
        };
        if observed != required {
            self.parity_errors = self.parity_errors.saturating_add(1);
        }
        self.sync_idx = (self.sync_idx + 1) % 8;

        // Reconstruct each subband.
        let sb_left = reconstruct_channel(&mut self.channels[0].bands, self.variant, codewords[0], dith_left);
        let sb_right = reconstruct_channel(&mut self.channels[1].bands, self.variant, codewords[1], dith_right);

        // Ingest LF/MLF/MHF codewords into the dither history (HF excluded).
        self.channels[0].dither.ingest(codewords[0][0], codewords[0][1], codewords[0][2]);
        self.channels[1].dither.ingest(codewords[1][0], codewords[1][1], codewords[1][2]);

        // QMF synthesis per channel.
        let pcm_left = self.channels[0].qmf.process(sb_left);
        let pcm_right = self.channels[1].qmf.process(sb_right);

        // Scale back down by 2^8 and clip to 16 bits.
        let ghost before = out@;
        let mut i: usize = 0;
        while i < 4
            invariant
                i <= 4,
                out@ == before + Seq::new(
                    2 * i as nat,
                    |k: int| if k % 2 == 0 {
                        output_sample(pcm_left[k / 2])
                    } else {
                        output_sample(pcm_right[k / 2])
                    },
                ),
            decreases 4 - i,
        {
            let l = clip_sample(pcm_left[i] >> 8i32);
            let r = clip_sample(pcm_right[i] >> 8i32);
            proof {
                let a = pcm_left[i as int];
                let b = pcm_right[i as int];
                assert(a >> 8i32 == a / 256 && b >> 8i32 == b / 256) by (bit_vector);
            }
            out.push(l);
            out.push(r);
            i = i + 1;
            proof {
                assert(out@ =~= before + Seq::new(
                    2 * i as nat,
                    |k: int| if k % 2 == 0 {
                        output_sample(pcm_left[k / 2])
                    } else {
                        output_sample(pcm_right[k / 2])
                    },
                ));
            }
        }
        proof {
            assert(codewords == block_codewords(self.variant, left_packed, right_packed));
            let spec = decode_block_spec(self.variant, s0, bytes@);
            assert(spec.1 == seq![
                output_sample(pcm_left[0]),
                output_sample(pcm_right[0]),
                output_sample(pcm_left[1]),
                output_sample(pcm_right[1]),
                output_sample(pcm_left[2]),
                output_sample(pcm_right[2]),
                output_sample(pcm_left[3]),
                output_sample(pcm_right[3]),
            ] && spec.0 == self.block_state()) by {
                reveal(decode_block_spec);
                reveal(next_decoder_channel);
            }
            assert(out@ =~= old(out)@ + spec.1);
        }
    }
}

/// A whole block decodes to 8 interleaved samples.
pub proof fn lemma_decode_block_size(variant: Variant, s: DecoderCoreView, bytes: Seq<u8>)
    requires
        bytes.len() >= variant.spec_block_bytes(),
    ensures
        decode_block_spec(variant, s, bytes).1.len() == 8,
{
    reveal(decode_block_spec);
}

/// `n` whole blocks decode to `8 * n` samples.
pub proof fn lemma_decode_blocks_size(variant: Variant, s: DecoderCoreView, bytes: Seq<u8>, n: nat)
    requires
        n * variant.spec_block_bytes() <= bytes.len(),
    ensures
        decode_blocks_spec(variant, s, bytes, n).1.len() == 8 * n,
    decreases n,
{
    if n > 0 {
        let bs = variant.spec_block_bytes() as int;
        assert((n - 1) * bs <= n * bs) by (nonlinear_arith)
            requires
                bs >= 0,
                n >= 1,
        ;
        lemma_decode_blocks_size(variant, s, bytes, (n - 1) as nat);
        let (s1, o1) = decode_blocks_spec(variant, s, bytes, (n - 1) as nat);
        assert(bs * n - bs * (n - 1) == bs && bs * n <= bytes.len() && 0 <= bs * (n - 1)) by (nonlinear_arith)
            requires
                n * bs <= bytes.len(),
                n >= 1,
                bs >= 0,
        ;
        let blk = bytes.subrange(bs * (n - 1), bs * n);
        lemma_decode_block_size(variant, s1, blk);
        assert(decode_blocks_spec(variant, s, bytes, n).1 == o1 + decode_block_spec(variant, s1, blk).1);
    }
}

/// Decoding `m + n` blocks is decoding `m` blocks, then `n` blocks of the
/// bytes that follow them.
proof fn lemma_decode_blocks_split(variant: Variant, s: DecoderCoreView, x: Seq<u8>, m: nat, n: nat)
    requires
        (m + n) * variant.spec_block_bytes() <= x.len(),
    ensures
        ({
            let bs = variant.spec_block_bytes() as int;
            let (s1, o1) = decode_blocks_spec(variant, s, x, m);
            let (s2, o2) = decode_blocks_spec(variant, s1, x.subrange(bs * m, x.len() as int), n);
            decode_blocks_spec(variant, s, x, m + n) == (s2, o1 + o2)
        }),
    decreases n,
{
    let bs = variant.spec_block_bytes() as int;
    let (s1, o1) = decode_blocks_spec(variant, s, x, m);
    assert(0 <= bs * m <= (m + n) * bs) by (nonlinear_arith)
        requires
            bs >= 0,
    ;
    let xr = x.subrange(bs * m, x.len() as int);
    if n == 0 {
        assert(o1 + Seq::<i16>::empty() =~= o1);
    } else {
        let n0 = (n - 1) as nat;
        assert((m + n0) * bs <= (m + n) * bs) by (nonlinear_arith)
            requires
                bs >= 0,
                n0 + 1 == n,
        ;
        lemma_decode_blocks_split(variant, s, x, m, n0);
        let (s2p, o2p) = decode_blocks_spec(variant, s1, xr, n0);
        let lo = bs * (m + n0);
        let hi = bs * (m + n);
        assert(lo == bs * m + bs * n0 && hi == bs * m + bs * n && bs * n == bs * n0 + bs) by (
        nonlinear_arith)
            requires
                lo == bs * (m + n0),
                hi == bs * (m + n),
                n == n0 + 1,
        ;
        assert(bs * (m + n - 1) == lo);
        let blk = x.subrange(lo, hi);
        assert(xr.subrange(bs * n0, bs * n) =~= blk);
        let (s3, ob) = decode_block_spec(variant, s2p, blk);
        assert((o1 + o2p) + ob =~= o1 + (o2p + ob));
        assert(decode_blocks_spec(variant, s1, xr, n) == (s3, o2p + ob));
        assert(decode_blocks_spec(variant, s, x, m + n) == (s3, (o1 + o2p) + ob));
    }
}

/// Two packets decode as their concatenation: decoding the bytes `a` (the
/// carried bytes and a packet), carrying their incomplete block, and then
/// the bytes `b` of the next packet gives the same block state (parity
/// error count included), the same samples in total and the same carry as
/// decoding `a + b` at once.
pub proof fn lemma_decode_framing(variant: Variant, s: DecoderCoreView, a: Seq<u8>, b: Seq<u8>)
    ensures
        ({
            let bs = variant.spec_block_bytes() as int;
            let n1 = a.len() as int / bs;
            let (s1, o1) = decode_blocks_spec(variant, s, a, n1 as nat);
            let rest = a.subrange(bs * n1, a.len() as int) + b;
            let n2 = rest.len() as int / bs;
            let (s2, o2) = decode_blocks_spec(variant, s1, rest, n2 as nat);
            let all = a + b;
            let n = all.len() as int / bs;
            &&& n == n1 + n2
            &&& decode_blocks_spec(variant, s, all, n as nat) == (s2, o1 + o2)
            &&& rest.subrange(bs * n2, rest.len() as int) == all.subrange(bs * n, all.len() as int)
        }),
{
    let bs = variant.spec_block_bytes() as int;
    let n1 = a.len() as int / bs;
    let rest = a.subrange(bs * n1, a.len() as int) + b;
    let n2 = rest.len() as int / bs;
    let all = a + b;
    let n = all.len() as int / bs;
    assert(0 <= bs * n1 <= a.len() && n1 >= 0) by (nonlinear_arith)
        requires
            bs == 4 || bs == 6,
            n1 == a.len() as int / bs,
    ;
    assert(rest.len() == all.len() - bs * n1);
    assert(n == n1 + n2 && 0 <= bs * n2 <= rest.len() && n2 >= 0 && bs * n <= all.len()) by (
    nonlinear_arith)
        requires
            bs == 4 || bs == 6,
            n1 >= 0,
            rest.len() == all.len() - bs * n1,
            n2 == rest.len() as int / bs,
            n == all.len() as int / bs,
    ;
    assert(n1 * bs == bs * n1 && n * bs == bs * n && (n1 + n2) * bs == bs * n) by (nonlinear_arith)
        requires
            n == n1 + n2,
    ;
    assert(all.subrange(0, bs * n1) =~= a.subrange(0, bs * n1));
    lemma_decode_blocks_prefix(variant, s, all, a, n1 as nat);
    assert(all.subrange(bs * n1, all.len() as int) =~= rest);
    lemma_decode_blocks_split(variant, s, all, n1 as nat, n2 as nat);
    assert(bs * n == bs * n1 + bs * n2) by (nonlinear_arith)
        requires
            n == n1 + n2,
    ;
    assert(rest.subrange(bs * n2, rest.len() as int) =~= all.subrange(bs * n, all.len() as int));
}

/// The little-endian bytes of two runs of samples are the bytes of their
/// concatenation.
pub proof fn lemma_le_bytes_concat(x: Seq<i16>, y: Seq<i16>)
    ensures
        le_bytes(x + y) == le_bytes(x) + le_bytes(y),
{
    let z = x + y;
    assert forall|k: int| 0 <= k < le_bytes(z).len() implies #[trigger] le_bytes(z)[k] == (le_bytes(x)
        + le_bytes(y))[k] by {
        if k < 2 * x.len() {
            assert(z[k / 2] == x[k / 2]);
        } else {
            let t = k - 2 * x.len();
            assert(k / 2 == x.len() + t / 2);
            assert(k % 2 == t % 2);
            assert(z[k / 2] == y[t / 2]);
        }
    }
    assert(le_bytes(z) =~= le_bytes(x) + le_bytes(y));
}

/// Write the little-endian bytes of a sample.
fn push_le_sample(buf: &mut Vec<u8>, x: i16)
    ensures
        final(buf)@ == old(buf)@ + seq![(x as int % 256) as u8, ((x as int / 256) % 256) as u8],
{
    let u = x as u16;
    let lo = (u & 0xFF) as u8;
    let hi = (u >> 8u16) as u8;
    proof {
        assert(lo as int == x as int % 256 && hi as int == (x as int / 256) % 256) by (bit_vector)
            requires
                u == x as u16,
                lo == (u & 0xFF) as u8,
                hi == (u >> 8u16) as u8,
        ;
    }
    buf.push(lo);
    buf.push(hi);
    proof {
        assert(buf@ =~= old(buf)@ + seq![(x as int % 256) as u8, ((x as int / 256) % 256) as u8]);
    }
}

impl AptxDecoder {
    /// Accept a packet of aptX bytes: prepend the carried bytes, decode every
    /// whole block, carry the rest, and queue one frame with the decoded PCM
    /// (interleaved S16LE). An empty packet changes nothing.
    pub fn send_packet(&mut self, data: &[u8], pts: Option<i64>)
        requires
            old(self).wf(),
            ({
                let n = (old(self).carried().len() + data@.len()) as int / (old(self).spec_variant().spec_block_bytes() as int);
                n > 0 ==> frame_pts(pts, old(self).spec_next_pts()) + ((4 * n) as u32) <= i64::MAX
            }),
        ensures
            final(self).wf(),
            final(self).spec_variant() == old(self).spec_variant(),
            final(self).spec_sample_rate() == old(self).spec_sample_rate(),
            final(self).is_drained() == old(self).is_drained(),
            data@.len() == 0 ==> final(self).block_state() == old(self).block_state()
                && final(self).carried() == old(self).carried()
                && final(self).queued() == old(self).queued()
                && final(self).spec_next_pts() == old(self).spec_next_pts(),
            data@.len() > 0 ==> ({
                let buf = old(self).carried() + data@;
                let bs = old(self).spec_variant().spec_block_bytes() as int;
                let n = buf.len() as int / bs;
                let (s2, out) = decode_blocks_spec(old(self).spec_variant(), old(self).block_state(), buf, n as nat);
                let p = frame_pts(pts, old(self).spec_next_pts());
                &&& final(self).block_state() == s2
                &&& final(self).carried() == buf.subrange(bs * n, buf.len() as int)
                &&& out.len() == 8 * n
                &&& n > 0 ==> final(self).queued() == old(self).queued().push(
                    DecodedFrameView { samples: (4 * n) as u32, pts: Some(p), data: le_bytes(out) },
                ) && final(self).spec_next_pts() == p + ((4 * n) as u32)
                &&& n == 0 ==> final(self).queued() == old(self).queued()
                    && final(self).spec_next_pts() == old(self).spec_next_pts()
            }),
    {
        if data.len() == 0 {
            return;
        }
        // Prepend the carried bytes, then walk the whole blocks.
        let mut buf: Vec<u8> = Vec::new();
        core::mem::swap(&mut buf, &mut self.carry);
        let ghost carried = buf@;
        let dlen = data.len();
        let mut i: usize = 0;
        while i < dlen
            invariant
                dlen == data@.len(),
                i <= dlen,
                buf@ == carried + data@.subrange(0, i as int),
            decreases dlen - i,
        {
            buf.push(data[i]);
            i = i + 1;
            proof {
                assert(data@.subrange(0, i as int) =~= data@.subrange(0, i - 1).push(data@[i - 1]));
            }
        }
        proof {
            assert(data@.subrange(0, dlen as int) =~= data@);
        }
        let ghost all = buf@;
        let ghost s0 = self.block_state();
        let block_size = self.variant.block_bytes();
        let blen = buf.len();
        let n_full = blen / block_size;
        assert(block_size * n_full <= blen);
        let mut decoded: Vec<i16> = Vec::new();
        let mut b: usize = 0;
        while b < n_full
            invariant
                self.wf(),
                b <= n_full,
                block_size == self.variant.spec_block_bytes(),
                block_size * n_full <= blen,
                blen == all.len(),
                n_full == all.len() as int / (block_size as int),
                buf@ == all,
                self.variant == old(self).variant,
                self.sample_rate == old(self).sample_rate,
                self.pending == old(self).pending,
                self.drained == old(self).drained,
                self.next_pts == old(self).next_pts,
                (self.block_state(), decoded@) == decode_blocks_spec(self.variant, s0, all, b as nat),
            decreases n_full - b,
        {
            let start = b * block_size;
            assert(start + block_size <= blen) by (nonlinear_arith)
                requires
                    start == b * block_size,
                    b < n_full,
                    block_size * n_full <= blen,
            ;
            let mut block: Vec<u8> = Vec::with_capacity(block_size);
            let mut j: usize = 0;
            while j < block_size
                invariant
                    j <= block_size,
                    start + block_size <= blen,
                    blen == all.len(),
                    buf@ == all,
                    block@ == all.subrange(start as int, start + j),
                decreases block_size - j,
            {
                block.push(buf[start + j]);
                j = j + 1;
                proof {
                    assert(all.subrange(start as int, start + j) =~= all.subrange(start as int, start + j - 1).push(all[start + j - 1]));
                }
            }
            proof {
                assert(block_size * (b + 1) == start + block_size) by (nonlinear_arith)
                    requires
                        start == b * block_size,
                ;
                assert(block_size * b == start) by (nonlinear_arith)
                    requires
                        start == b * block_size,
                ;
            }
            self.decode_block(block.as_slice(), &mut decoded);
            b = b + 1;
        }
        // Carry the trailing partial block.
        let consumed = n_full * block_size;
        let mut rest: Vec<u8> = Vec::new();
        let mut k: usize = consumed;
        while k < blen
            invariant
                consumed <= k <= blen,
                blen == all.len(),
                buf@ == all,
                rest@ == all.subrange(consumed as int, k as int),
            decreases blen - k,
        {
            rest.push(buf[k]);
            k = k + 1;
            proof {
                assert(all.subrange(consumed as int, k as int) =~= all.subrange(consumed as int, k - 1).push(all[k - 1]));
            }
        }
        proof {
            assert(consumed == block_size * n_full) by (nonlinear_arith)
                requires
                    consumed == n_full * block_size,
            ;
            assert(blen - consumed < block_size) by (nonlinear_arith)
                requires
                    consumed == n_full * block_size,
                    n_full == blen as int / (block_size as int),
                    block_size > 0,
            ;
            lemma_decode_blocks_size(self.variant, s0, all, n_full as nat);
        }
        self.carry = rest;
        if decoded.len() > 0 {
            let n_samples = (decoded.len() / 2) as u32;
            let mut bytes: Vec<u8> = Vec::new();
            let ghost outs = decoded@;
            let mut t: usize = 0;
            while t < decoded.len()
                invariant
                    t <= decoded@.len(),
                    decoded@ == outs,
                    bytes@ == le_bytes(outs.subrange(0, t as int)),
                decreases decoded@.len() - t,
            {
                let x = decoded[t];
                push_le_sample(&mut bytes, x);
                t = t + 1;
                proof {
                    assert(bytes@ =~= le_bytes(outs.subrange(0, t as int)));
                }
            }
            proof {
                assert(outs.subrange(0, outs.len() as int) =~= outs);
            }
            let p = match pts {
                Some(p) => p,
                None => self.next_pts,
            };
            self.next_pts = p + n_samples as i64;
            let frame = DecodedFrame { samples: n_samples, pts: Some(p), data: bytes };
            self.pending.push_back(frame);
            proof {
                assert(self.queued() =~= old(self).queued().push(
                    DecodedFrameView { samples: n_samples, pts: Some(p), data: le_bytes(outs) },
                ));
            }
        }
    }

    /// The next decoded frame; when none is queued, `Eof` after a flush and
    /// `NeedMore` before.
    pub fn receive_frame(&mut self) -> (r: Result<DecodedFrame, ReceiveStatus>)
        requires
            old(self).wf(),
        ensures
            final(self).wf(),
            final(self).block_state() == old(self).block_state(),
            final(self).carried() == old(self).carried(),
            final(self).is_drained() == old(self).is_drained(),
            final(self).spec_next_pts() == old(self).spec_next_pts(),
            final(self).spec_variant() == old(self).spec_variant(),
            final(self).spec_sample_rate() == old(self).spec_sample_rate(),
            old(self).queued().len() > 0 ==> r.is_ok() && r.unwrap()@ == old(self).queued()[0]
                && final(self).queued() == old(self).queued().drop_first(),
            old(self).queued().len() == 0 ==> final(self).queued() == old(self).queued() && r == (
                if old(self).is_drained() {
                    Err::<DecodedFrame, ReceiveStatus>(ReceiveStatus::Eof)
                } else {
                    Err::<DecodedFrame, ReceiveStatus>(ReceiveStatus::NeedMore)
                }),
    {
        match self.pending.pop_front() {
            Some(f) => {
                proof {
                    assert(self.queued() =~= old(self).queued().drop_first());
                }
                Ok(f)
            },
            None => {
                proof {
                    assert(self.queued() =~= old(self).queued());
                }
                if self.drained {
                    Err(ReceiveStatus::Eof)
                } else {
                    Err(ReceiveStatus::NeedMore)
                }
            },
        }
    }

    /// Mark the end of the stream: once the queue is empty, `receive_frame`
    /// reports `Eof`.
    pub fn flush(&mut self)
        requires
            old(self).wf(),
        ensures
            final(self).wf(),
            final(self).is_drained(),
            final(self).block_state() == old(self).block_state(),
            final(self).carried() == old(self).carried(),
            final(self).queued() == old(self).queued(),
            final(self).spec_next_pts() == old(self).spec_next_pts(),
            final(self).spec_variant() == old(self).spec_variant(),
            final(self).spec_sample_rate() == old(self).spec_sample_rate(),
    {
        self.drained = true;
    }

    /// Return to the state of a fresh decoder of the same variant.
    pub fn reset(&mut self)
        requires
            old(self).wf(),
        ensures
            final(self).wf(),
            final(self).spec_variant() == old(self).spec_variant(),
            final(self).spec_sample_rate() == old(self).spec_sample_rate(),
            final(self).block_state() == (DecoderCoreView {
                left: initial_decoder_channel(old(self).spec_variant()),
                right: initial_decoder_channel(old(self).spec_variant()),
                sync_idx: 0,
                parity_errors: 0,
            }),
            final(self).carried() == Seq::<u8>::empty(),
            final(self).queued() == Seq::<DecodedFrameView>::empty(),
            !final(self).is_drained(),
            final(self).spec_next_pts() == 0,
    {
        self.channels = [DecoderChannel::new(self.variant), DecoderChannel::new(self.variant)];
        self.sync_idx = 0;
        self.carry.clear();
        self.pending = VecDeque::new();
        self.drained = false;
        self.next_pts = 0;
        self.parity_errors = 0;
        proof {
            assert(self.queued() =~= Seq::<DecodedFrameView>::empty());
        }
    }
}

// ---------------------------------------------------------------------------
// Encoder / decoder lock-step
// ---------------------------------------------------------------------------

/// An encoder and a decoder in step: the same subband states (which keep
/// their bounds), the same dither histories and the same sync position.
pub open spec fn in_step(variant: Variant, e: EncoderCoreView, d: DecoderCoreView) -> bool {
    &&& bands_ok(e.left.bands, variant)
    &&& bands_ok(e.right.bands, variant)
    &&& d.left.bands == e.left.bands
    &&& d.right.bands == e.right.bands
    &&& d.left.dither.history == e.left.dither.history
    &&& d.right.dither.history == e.right.dither.history
    &&& d.sync_idx == e.sync_idx
    &&& e.sync_idx < 8
}

/// The quantized codewords of a channel fit their subbands' widths.
proof fn lemma_quantized_fit(variant: Variant, bands: Seq<crate::subband::SubbandView>, sb: [i32; 4])
    requires
        bands_ok(bands, variant),
    ensures
        forall|i: int| 0 <= i < 4 ==> -(pow2((band_bits(variant, i) - 1) as nat) as int) < #[trigger] quantize_bands(bands, sb).0[i]
            < pow2((band_bits(variant, i) - 1) as nat),
{
    reveal(quantize_bands);
    assert forall|i: int| 0 <= i < 4 implies -(pow2((band_bits(variant, i) - 1) as nat) as int) < #[trigger] quantize_bands(bands, sb).0[i]
        < pow2((band_bits(variant, i) - 1) as nat) by {
        let b = bands[i];
        assert(b.inv());
        lemma_quantized_in_range(b, (sb[i] - b.predicted()) as i32);
    }
}

/// Parity injection makes the block parity the required one and keeps every
/// codeword within its subband's width.
proof fn lemma_parity_adjusted(
    variant: Variant,
    cws: [[i32; 4]; 2],
    errs: [[i32; 4]; 2],
    dpl: u8,
    dpr: u8,
    sync_idx: u8,
)
    requires
        forall|c: int, i: int|
            0 <= c < 2 && 0 <= i < 4 ==> -(pow2((band_bits(variant, i) - 1) as nat) as int) < #[trigger] cws[c][i]
                < pow2((band_bits(variant, i) - 1) as nat),
    ensures
        block_parity_spec(parity_adjusted(cws, errs, dpl, dpr, sync_idx), dpl, dpr) == parity_required(sync_idx),
        codewords_fit(variant, parity_adjusted(cws, errs, dpl, dpr, sync_idx)[0]),
        codewords_fit(variant, parity_adjusted(cws, errs, dpl, dpr, sync_idx)[1]),
{
    let adj = parity_adjusted(cws, errs, dpl, dpr, sync_idx);
    lemma2_to64();
    if block_parity_spec(cws, dpl, dpr) != parity_required(sync_idx) {
        let k = first_min_index(errs, 8);
        lemma_first_min_range(errs, 8);
        let v = flip_codeword(codeword_at(cws, k));
        lemma_parity_flip(cws, k, v, dpl, dpr);
        assert forall|c: int, i: int| 0 <= c < 2 && 0 <= i < 4 implies fits_signed(#[trigger] adj[c][i] as int, band_bits(variant, i)) by {
            assert(-(pow2((band_bits(variant, i) - 1) as nat) as int) < cws[c][i] < pow2((band_bits(variant, i) - 1) as nat));
        }
    } else {
        assert forall|c: int, i: int| 0 <= c < 2 && 0 <= i < 4 implies fits_signed(#[trigger] adj[c][i] as int, band_bits(variant, i)) by {
            assert(-(pow2((band_bits(variant, i) - 1) as nat) as int) < cws[c][i] < pow2((band_bits(variant, i) - 1) as nat));
        }
    }
    assert forall|i: int| 0 <= i < 4 implies fits_signed(#[trigger] adj[0][i] as int, band_bits(variant, i)) by {
        assert(fits_signed(adj[0][i] as int, band_bits(variant, i)));
    }
    assert forall|i: int| 0 <= i < 4 implies fits_signed(#[trigger] adj[1][i] as int, band_bits(variant, i)) by {
        assert(fits_signed(adj[1][i] as int, band_bits(variant, i)));
    }
}

proof fn lemma_first_min_range(errs: [[i32; 4]; 2], k: int)
    requires
        0 <= k <= 8,
    ensures
        0 <= first_min_index(errs, k) < 8,
        k >= 1 ==> first_min_index(errs, k) < k,
    decreases k,
{
    if k > 1 {
        lemma_first_min_range(errs, k - 1);
    }
}

proof fn lemma_first_min_is_min(errs: [[i32; 4]; 2], k: int)
    requires
        1 <= k <= 8,
    ensures
        forall|j: int| 0 <= j < k ==> error_at(errs, first_min_index(errs, k)) <= #[trigger] error_at(errs, j),
        forall|j: int| 0 <= j < first_min_index(errs, k) ==> error_at(errs, first_min_index(errs, k)) < #[trigger] error_at(errs, j),
    decreases k,
{
    if k > 1 {
        lemma_first_min_is_min(errs, k - 1);
        lemma_first_min_range(errs, k - 1);
    }
}

/// Parity injection: the adjusted block has the parity that its position
/// in the sync cycle requires (odd for the last of every 8 blocks, even
/// otherwise); at most one codeword changes, by exactly one (down when it
/// is positive, up otherwise), and it is the first of the smallest
/// quantization errors.
pub proof fn lemma_parity_injection(cws: [[i32; 4]; 2], errs: [[i32; 4]; 2], dpl: u8, dpr: u8, sync_idx: u8)
    ensures
        ({
            let r = parity_adjusted(cws, errs, dpl, dpr, sync_idx);
            let k = first_min_index(errs, 8);
            &&& block_parity_spec(r, dpl, dpr) == parity_required(sync_idx)
            &&& 0 <= k < 8
            &&& forall|j: int| 0 <= j < 8 ==> error_at(errs, k) <= #[trigger] error_at(errs, j)
            &&& forall|j: int| 0 <= j < k ==> error_at(errs, k) < #[trigger] error_at(errs, j)
            &&& forall|j: int| 0 <= j < 8 && j != k ==> #[trigger] codeword_at(r, j) == codeword_at(cws, j)
            &&& (r == cws || codeword_at(r, k) == codeword_at(cws, k) + 1 || codeword_at(r, k)
                == codeword_at(cws, k) - 1)
            &&& (r == cws <==> block_parity_spec(cws, dpl, dpr) == parity_required(sync_idx))
            &&& r != cws ==> codeword_at(r, k) == (if codeword_at(cws, k) <= 0 {
                codeword_at(cws, k) + 1
            } else {
                codeword_at(cws, k) - 1
            })
            &&& (parity_required(sync_idx) == 1 <==> sync_idx == 7)
        }),
{
    let k = first_min_index(errs, 8);
    lemma_first_min_range(errs, 8);
    lemma_first_min_is_min(errs, 8);
    if block_parity_spec(cws, dpl, dpr) != parity_required(sync_idx) {
        let v = flip_codeword(codeword_at(cws, k));
        lemma_parity_flip(cws, k, v, dpl, dpr);
        let r = with_codeword(cws, k, v);
        assert(codeword_at(r, k) == v);
        assert(r != cws);
    }
}

/// Every encoded block carries the parity that its position in the sync
/// cycle requires, advances the cycle by one, and is `block_bytes` long.
pub proof fn lemma_encoded_block_parity(variant: Variant, s: EncoderCoreView, pcm: Seq<i16>)
    ensures
        block_parity_spec(
            encoded_codewords(s, pcm),
            block_parity_bit(s.left.dither.history),
            block_parity_bit(s.right.dither.history),
        ) == parity_required(s.sync_idx),
        encode_block_spec(variant, s, pcm).0.sync_idx == (s.sync_idx + 1) % 8,
        encode_block_spec(variant, s, pcm).1.len() == variant.spec_block_bytes(),
{
    reveal(encoded_codewords);
    reveal(encode_block_spec);
    let (_ql, sbl) = qmf_analysis_step(
        s.left.qmf,
        [promoted(pcm, 0), promoted(pcm, 2), promoted(pcm, 4), promoted(pcm, 6)],
    );
    let (_qr, sbr) = qmf_analysis_step(
        s.right.qmf,
        [promoted(pcm, 1), promoted(pcm, 3), promoted(pcm, 5), promoted(pcm, 7)],
    );
    let (cwl, errl) = quantize_bands(s.left.bands, sbl);
    let (cwr, errr) = quantize_bands(s.right.bands, sbr);
    lemma_parity_injection(
        [cwl, cwr],
        [errl, errr],
        block_parity_bit(s.left.dither.history),
        block_parity_bit(s.right.dither.history),
        s.sync_idx,
    );
    lemma_encode_block_size(variant, s, pcm);
}

/// Reconstruction keeps the subband states' bounds.
proof fn lemma_reconstructed_ok(variant: Variant, bands: Seq<crate::subband::SubbandView>, cws: [i32; 4], dith: [i32; 4])
    requires
        bands_ok(bands, variant),
    ensures
        bands_ok(reconstructed_bands(bands, cws, dith), variant),
{
    reveal(reconstruct_band);
    let r = reconstructed_bands(bands, cws, dith);
    assert forall|i: int| 0 <= i < 4 implies {
        &&& (#[trigger] r[i]).inv()
        &&& r[i].variant == variant
        &&& r[i].subband == subband_at(i)
    } by {
        let b = bands[i];
        assert(b.inv());
        let pred = b.predicted();
        let rd = b.inverse_quantized(cws[i], dith[i]);
        lemma_updated_inv(b, cws[i], rd, (pred + rd) as i32);
    }
}

/// What the encoder emits for a block: the parity-adjusted codewords fit
/// their subbands and carry the required parity.
proof fn lemma_encoded_codewords_ok(variant: Variant, e: EncoderCoreView, pcm: Seq<i16>)
    requires
        bands_ok(e.left.bands, variant),
        bands_ok(e.right.bands, variant),
    ensures
        codewords_fit(variant, encoded_codewords(e, pcm)[0]),
        codewords_fit(variant, encoded_codewords(e, pcm)[1]),
        block_parity_spec(
            encoded_codewords(e, pcm),
            crate::dither::block_parity_bit(e.left.dither.history),
            crate::dither::block_parity_bit(e.right.dither.history),
        ) == parity_required(e.sync_idx),
{
    reveal(encoded_codewords);
    let (_ql, sbl) = crate::qmf::qmf_analysis_step(
        e.left.qmf,
        [crate::encoder::promoted(pcm, 0), crate::encoder::promoted(pcm, 2), crate::encoder::promoted(pcm, 4), crate::encoder::promoted(pcm, 6)],
    );
    let (_qr, sbr) = crate::qmf::qmf_analysis_step(
        e.right.qmf,
        [crate::encoder::promoted(pcm, 1), crate::encoder::promoted(pcm, 3), crate::encoder::promoted(pcm, 5), crate::encoder::promoted(pcm, 7)],
    );
    let (cwl, errl) = quantize_bands(e.left.bands, sbl);
    let (cwr, errr) = quantize_bands(e.right.bands, sbr);
    lemma_quantized_fit(variant, e.left.bands, sbl);
    lemma_quantized_fit(variant, e.right.bands, sbr);
    let raw = [cwl, cwr];
    assert forall|c: int, i: int| 0 <= c < 2 && 0 <= i < 4 implies -(pow2((band_bits(variant, i) - 1) as nat) as int) < #[trigger] raw[c][i]
        < pow2((band_bits(variant, i) - 1) as nat) by {
        if c == 0 {
            assert(raw[c][i] == quantize_bands(e.left.bands, sbl).0[i]);
        } else {
            assert(raw[c][i] == quantize_bands(e.right.bands, sbr).0[i]);
        }
    }
    let pl = crate::dither::block_parity_bit(e.left.dither.history);
    let pr = crate::dither::block_parity_bit(e.right.dither.history);
    lemma_parity_adjusted(variant, raw, [errl, errr], pl, pr, e.sync_idx);
}

/// The parts of an encoded block.
proof fn lemma_encode_block_parts(variant: Variant, e: EncoderCoreView, pcm: Seq<i16>)
    ensures
        ({
            let (e2, bytes) = encode_block_spec(variant, e, pcm);
            let cws = encoded_codewords(e, pcm);
            let hl = e.left.dither.history;
            let hr = e.right.dither.history;
            &&& bytes == pack_block_spec(variant, pack_channel_spec(variant, cws[0]), pack_channel_spec(variant, cws[1]))
            &&& e2.left.bands == reconstructed_bands(e.left.bands, cws[0], block_dither(hl))
            &&& e2.right.bands == reconstructed_bands(e.right.bands, cws[1], block_dither(hr))
            &&& e2.left.dither.history == crate::dither::ingested(lfsr_steps(hl, 4), cws[0][0], cws[0][1], cws[0][2])
            &&& e2.right.dither.history == crate::dither::ingested(lfsr_steps(hr, 4), cws[1][0], cws[1][1], cws[1][2])
            &&& e2.sync_idx == (e.sync_idx + 1) % 8
        }),
{
    reveal(encode_block_spec);
    reveal(next_encoder_channel);
}

/// The parts of a decoded whole block.
proof fn lemma_decode_block_parts(variant: Variant, d: DecoderCoreView, bytes: Seq<u8>, l: u32, r: u32)
    requires
        unpack_block_spec(variant, bytes) == Some((l, r)),
    ensures
        ({
            let (d2, out) = decode_block_spec(variant, d, bytes);
            let cws = block_codewords(variant, l, r);
            let hl = d.left.dither.history;
            let hr = d.right.dither.history;
            &&& d2.left.bands == reconstructed_bands(d.left.bands, cws[0], block_dither(hl))
            &&& d2.right.bands == reconstructed_bands(d.right.bands, cws[1], block_dither(hr))
            &&& d2.left.dither.history == crate::dither::ingested(lfsr_steps(hl, 4), cws[0][0], cws[0][1], cws[0][2])
            &&& d2.right.dither.history == crate::dither::ingested(lfsr_steps(hr, 4), cws[1][0], cws[1][1], cws[1][2])
            &&& d2.sync_idx == (d.sync_idx + 1) % 8
            &&& parity_ok(d, cws) ==> d2.parity_errors == d.parity_errors
            &&& out.len() == 8
        }),
{
    reveal(decode_block_spec);
    reveal(next_decoder_channel);
}

/// Channel separation of the encoder. The left channel's QMF takes the
/// even (left) samples scaled by 2^8 and the right one's the odd samples;
/// each channel's bands quantize that channel's subbands. Parity injection
/// then moves at most one of the eight codewords, by one. The next state
/// keeps each channel's own QMF and its bands updated from its own
/// codewords, and the block carries the left channel word first.
pub proof fn lemma_encoder_channels(variant: Variant, s: EncoderCoreView, pcm: Seq<i16>)
    ensures
        ({
            let xl = [
                (pcm[0] as int * 256) as i32,
                (pcm[2] as int * 256) as i32,
                (pcm[4] as int * 256) as i32,
                (pcm[6] as int * 256) as i32,
            ];
            let xr = [
                (pcm[1] as int * 256) as i32,
                (pcm[3] as int * 256) as i32,
                (pcm[5] as int * 256) as i32,
                (pcm[7] as int * 256) as i32,
            ];
            let (ql, sbl) = qmf_analysis_step(s.left.qmf, xl);
            let (qr, sbr) = qmf_analysis_step(s.right.qmf, xr);
            let q = [quantize_bands(s.left.bands, sbl).0, quantize_bands(s.right.bands, sbr).0];
            let cws = encoded_codewords(s, pcm);
            let (s2, bytes) = encode_block_spec(variant, s, pcm);
            &&& forall|k: int|
                0 <= k < 8 ==> (#[trigger] codeword_at(cws, k) == codeword_at(q, k) || codeword_at(cws, k)
                    == codeword_at(q, k) + 1 || codeword_at(cws, k) == codeword_at(q, k) - 1)
            &&& forall|j: int, k: int|
                0 <= j < k < 8 ==> (#[trigger] codeword_at(cws, j) == codeword_at(q, j) || #[trigger] codeword_at(cws, k)
                    == codeword_at(q, k))
            &&& s2.left.qmf == ql
            &&& s2.right.qmf == qr
            &&& s2.left.bands == reconstructed_bands(s.left.bands, cws[0], block_dither(s.left.dither.history))
            &&& s2.right.bands == reconstructed_bands(s.right.bands, cws[1], block_dither(s.right.dither.history))
            &&& bytes == pack_block_spec(variant, pack_channel_spec(variant, cws[0]), pack_channel_spec(variant, cws[1]))
        }),
{
    reveal(encoded_codewords);
    reveal(encode_block_spec);
    reveal(next_encoder_channel);
    let (_ql, sbl) = qmf_analysis_step(s.left.qmf, [promoted(pcm, 0), promoted(pcm, 2), promoted(pcm, 4), promoted(pcm, 6)]);
    let (_qr, sbr) = qmf_analysis_step(s.right.qmf, [promoted(pcm, 1), promoted(pcm, 3), promoted(pcm, 5), promoted(pcm, 7)]);
    let (cwl, errl) = quantize_bands(s.left.bands, sbl);
    let (cwr, errr) = quantize_bands(s.right.bands, sbr);
    lemma_parity_injection(
        [cwl, cwr],
        [errl, errr],
        block_parity_bit(s.left.dither.history),
        block_parity_bit(s.right.dither.history),
        s.sync_idx,
    );
}

/// Channel separation of the decoder. The first channel word of a block
/// feeds the left bands, dither and synthesis tree and the even (left)
/// output samples; the second word the right ones and the odd samples. A
/// block whose parity differs from the one its sync position requires adds
/// one parity error (saturating). So
/// two blocks with the same first word give the same left output and left
/// state.
pub proof fn lemma_decoder_channels(variant: Variant, s: DecoderCoreView, bytes: Seq<u8>, bytes2: Seq<u8>)
    requires
        bytes.len() >= variant.spec_block_bytes(),
        bytes2.len() >= variant.spec_block_bytes(),
    ensures
        ({
            let (l, r) = unpack_block_spec(variant, bytes).unwrap();
            let sbl = reconstructed_samples(
                s.left.bands,
                unpack_channel_spec(variant, l),
                block_dither(s.left.dither.history),
            );
            let sbr = reconstructed_samples(
                s.right.bands,
                unpack_channel_spec(variant, r),
                block_dither(s.right.dither.history),
            );
            let (ql, pl) = qmf_synthesis_step(s.left.qmf, sbl);
            let (qr, pr) = qmf_synthesis_step(s.right.qmf, sbr);
            let (s2, out) = decode_block_spec(variant, s, bytes);
            &&& out.len() == 8
            &&& forall|j: int| 0 <= j < 4 ==> out[2 * j] == output_sample(#[trigger] pl[j])
            &&& forall|j: int| 0 <= j < 4 ==> out[2 * j + 1] == output_sample(#[trigger] pr[j])
            &&& s2.left.qmf == ql
            &&& s2.right.qmf == qr
            &&& s2.parity_errors == if block_parity_spec(
                [unpack_channel_spec(variant, l), unpack_channel_spec(variant, r)],
                block_parity_bit(s.left.dither.history),
                block_parity_bit(s.right.dither.history),
            ) == parity_required(s.sync_idx) || s.parity_errors == u64::MAX {
                s.parity_errors
            } else {
                (s.parity_errors + 1) as u64
            }
            &&& s2.left.bands == reconstructed_bands(s.left.bands, unpack_channel_spec(variant, l), block_dither(s.left.dither.history))
            &&& s2.right.bands == reconstructed_bands(s.right.bands, unpack_channel_spec(variant, r), block_dither(s.right.dither.history))
        }),
        unpack_block_spec(variant, bytes).unwrap().0 == unpack_block_spec(variant, bytes2).unwrap().0 ==> ({
            let (s2, out) = decode_block_spec(variant, s, bytes);
            let (t2, out2) = decode_block_spec(variant, s, bytes2);
            &&& forall|j: int| 0 <= j < 4 ==> #[trigger] out[2 * j] == out2[2 * j]
            &&& s2.left == t2.left
        }),
{
    reveal(decode_block_spec);
    reveal(next_decoder_channel);
    lemma2_to64();
    let (d2, out) = decode_block_spec(variant, s, bytes);
    assert(out.len() == 8);
}

/// Lock-step, one block: a decoder in step with the encoder decodes the
/// encoder's block with the parity sync intact (no parity error is counted),
/// and the two stay in step; the block yields 8 samples.
pub proof fn lemma_block_lockstep(variant: Variant, e: EncoderCoreView, d: DecoderCoreView, pcm: Seq<i16>)
    requires
        in_step(variant, e, d),
    ensures
        ({
            let (e2, bytes) = encode_block_spec(variant, e, pcm);
            let (d2, out) = decode_block_spec(variant, d, bytes);
            &&& d2.parity_errors == d.parity_errors
            &&& in_step(variant, e2, d2)
            &&& out.len() == 8
        }),
{
    let cws = encoded_codewords(e, pcm);
    lemma_encoded_codewords_ok(variant, e, pcm);
    lemma_encode_block_parts(variant, e, pcm);
    lemma_channel_roundtrip(variant, cws[0]);
    lemma_channel_roundtrip(variant, cws[1]);
    let l = pack_channel_spec(variant, cws[0]);
    let r = pack_channel_spec(variant, cws[1]);
    lemma_block_roundtrip(variant, l, r);
    let bytes = encode_block_spec(variant, e, pcm).1;
    assert(block_codewords(variant, l, r) =~= cws);
    lemma_decode_block_parts(variant, d, bytes, l, r);
    lemma_reconstructed_ok(variant, e.left.bands, cws[0], block_dither(e.left.dither.history));
    lemma_reconstructed_ok(variant, e.right.bands, cws[1], block_dither(e.right.dither.history));
}

/// Decoding the first `k` blocks reads only the first `k` blocks' bytes.
proof fn lemma_decode_blocks_prefix(variant: Variant, d: DecoderCoreView, x: Seq<u8>, y: Seq<u8>, k: nat)
    requires
        k * variant.spec_block_bytes() <= x.len(),
        k * variant.spec_block_bytes() <= y.len(),
        x.subrange(0, k * variant.spec_block_bytes()) == y.subrange(0, k * variant.spec_block_bytes()),
    ensures
        decode_blocks_spec(variant, d, x, k) == decode_blocks_spec(variant, d, y, k),
    decreases k,
{
    if k > 0 {
        let bs = variant.spec_block_bytes() as int;
        let m = (k - 1) as nat;
        assert(m * bs + bs == k * bs) by (nonlinear_arith)
            requires
                m + 1 == k,
        ;
        assert(x.subrange(0, m * bs) =~= x.subrange(0, k * bs).subrange(0, m * bs));
        assert(y.subrange(0, m * bs) =~= y.subrange(0, k * bs).subrange(0, m * bs));
        lemma_decode_blocks_prefix(variant, d, x, y, m);
        assert(bs * (k - 1) == m * bs && bs * k == k * bs) by (nonlinear_arith)
            requires
                m + 1 == k,
        ;
        assert(x.subrange(bs * (k - 1), bs * k) =~= y.subrange(bs * (k - 1), bs * k)) by {
            assert forall|j: int| 0 <= j < bs implies #[trigger] x.subrange(bs * (k - 1), bs * k)[j] == y.subrange(bs * (k - 1), bs * k)[j] by {
                assert(x.subrange(0, k * bs)[m * bs + j] == y.subrange(0, k * bs)[m * bs + j]);
            }
        }
    }
}

/// Lock-step, whole streams: a decoder in step with the encoder decodes the
/// bytes of any `n` encoded blocks without counting a parity error, and the
/// two end in step; the output holds 8 samples per block.
pub proof fn lemma_stream_lockstep(
    variant: Variant,
    e: EncoderCoreView,
    d: DecoderCoreView,
    samples: Seq<i16>,
    n: nat,
)
    requires
        in_step(variant, e, d),
    ensures
        ({
            let (e2, bytes) = encode_blocks_spec(variant, e, samples, n);
            let (d2, out) = decode_blocks_spec(variant, d, bytes, n);
            &&& d2.parity_errors == d.parity_errors
            &&& in_step(variant, e2, d2)
            &&& out.len() == 8 * n
        }),
    decreases n,
{
    if n > 0 {
        let m = (n - 1) as nat;
        let bs = variant.spec_block_bytes() as int;
        lemma_stream_lockstep(variant, e, d, samples, m);
        let (e1, b1) = encode_blocks_spec(variant, e, samples, m);
        let (d1, o1) = decode_blocks_spec(variant, d, b1, m);
        let pcm = samples.subrange(8 * (n - 1), (8 * n) as int);
        let (e2, blk) = encode_block_spec(variant, e1, pcm);
        let bytes = b1 + blk;
        assert(encode_blocks_spec(variant, e, samples, n) == (e2, bytes));
        lemma_encode_blocks_size(variant, e, samples, m);
        lemma_encode_block_size(variant, e1, pcm);
        assert(m * bs + bs == n * bs) by (nonlinear_arith)
            requires
                m + 1 == n,
        ;
        assert(bytes.subrange(0, m * bs) =~= b1.subrange(0, m * bs));
        lemma_decode_blocks_prefix(variant, d, bytes, b1, m);
        assert(bs * (n - 1) == m * bs && bs * n == n * bs) by (nonlinear_arith)
            requires
                m + 1 == n,
        ;
        assert(bytes.subrange(bs * (n - 1), bs * n) =~= blk);
        lemma_block_lockstep(variant, e1, d1, pcm);
    }
}

/// A frame, then a flush, then one packet with all the bytes: the samples
/// encode to one block per started group of 8 (the last padded with
/// zeros), and a decoder in step with the encoder decodes all those bytes
/// without a parity error and ends in step.
pub proof fn lemma_frame_flush_stream(variant: Variant, e: EncoderCoreView, d: DecoderCoreView, samples: Seq<i16>)
    requires
        in_step(variant, e, d),
    ensures
        ({
            let n = samples.len() / 8;
            let (e1, b1) = encode_blocks_spec(variant, e, samples, n);
            let rest = samples.subrange(8 * n as int, samples.len() as int);
            let (e2, b2) = if rest.len() > 0 {
                encode_block_spec(
                    variant,
                    e1,
                    rest + Seq::new((8 - rest.len()) as nat, |i: int| 0i16),
                )
            } else {
                (e1, Seq::<u8>::empty())
            };
            let bytes = b1 + b2;
            let k = (samples.len() + 7) / 8;
            let (d2, out) = decode_blocks_spec(variant, d, bytes, k);
            &&& bytes.len() == k * variant.spec_block_bytes()
            &&& d2.parity_errors == d.parity_errors
            &&& in_step(variant, e2, d2)
            &&& out.len() == 8 * k
        }),
{
    let n = samples.len() / 8;
    let (e1, b1) = encode_blocks_spec(variant, e, samples, n);
    let rest = samples.subrange(8 * n as int, samples.len() as int);
    let k = (samples.len() + 7) / 8;
    let pad = Seq::new((8 * k - samples.len()) as nat, |i: int| 0i16);
    let padded = samples + pad;
    lemma_encode_blocks_size(variant, e, samples, n);
    if rest.len() == 0 {
        assert(k == n);
        assert(padded =~= samples);
        assert(b1 + Seq::<u8>::empty() =~= b1);
    } else {
        assert(k == n + 1);
        assert(padded.subrange(0, 8 * n as int) =~= samples.subrange(0, 8 * n as int));
        lemma_encode_blocks_prefix(variant, e, padded, samples, n);
        let blk = rest + Seq::new((8 - rest.len()) as nat, |i: int| 0i16);
        assert(padded.subrange(8 * n as int, 8 * k as int) =~= blk);
        assert(encode_blocks_spec(variant, e, padded, k) == (
            encode_block_spec(variant, e1, blk).0,
            b1 + encode_block_spec(variant, e1, blk).1,
        ));
    }
    lemma_stream_lockstep(variant, e, d, padded, k);
    lemma_encode_blocks_size(variant, e, padded, k);
}

/// A fresh encoder and a fresh decoder of the same variant are in step, so
/// a clean stream decodes without a single parity error.
pub proof fn lemma_fresh_in_step(variant: Variant)
    ensures
        in_step(
            variant,
            EncoderCoreView {
                left: initial_encoder_channel(variant),
                right: initial_encoder_channel(variant),
                sync_idx: 0,
            },
            DecoderCoreView {
                left: initial_decoder_channel(variant),
                right: initial_decoder_channel(variant),
                sync_idx: 0,
                parity_errors: 0,
            },
        ),
{
    let b = initial_bands(variant);
    assert forall|i: int| 0 <= i < 4 implies {
        &&& (#[trigger] b[i]).inv()
        &&& b[i].variant == variant
        &&& b[i].subband == subband_at(i)
    } by {
        lemma_initial_inv(variant, subband_at(i));
    }
}

/// Clip a shifted-down sample to the 16-bit range.
fn clip_sample(v: i32) -> (r: i16)
    ensures
        r as int == (if v < -32768 {
            -32768
        } else if v > 32767 {
            32767
        } else {
            v as int
        }),
{
    if v < -32768 {
        -32768
    } else if v > 32767 {
        32767
    } else {
        v as i16
    }
}

} // verus!
