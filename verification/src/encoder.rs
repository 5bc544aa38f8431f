//! aptX encoder (classic and HD).
//!
//! Per stereo block (4 PCM samples per channel):
//!
//! 1. Run each channel's PCM (scaled up by 2^8) through QMF analysis.
//! 2. Draw the block's dither from each channel's codeword history.
//! 3. Per subband: quantize the sample minus its prediction.
//! 4. If the parity of the 8 codewords and both dither parities differs
//!    from the value required at the current position of the 8-block sync
//!    cycle, move the codeword with the smallest quantization error by one.
//! 5. Update each subband's predictor and step size, and the dither history.
//! 6. Pack each channel's 4 codewords and emit the big-endian block.

use vstd::prelude::*;
use std::collections::VecDeque;
use vstd::string::StrSliceExecFns;
use crate::channel::{
    EncoderChannel, EncoderChannelView, initial_encoder_channel, quantize_bands, quantize_channel,
    reconstruct_channel, reconstructed_bands,
};
use crate::codeword::{
    block_parity, block_parity_spec, pack_block, pack_block_spec, pack_channel,
    pack_channel_spec, parity_required, with_codeword, codeword_at,
};
use crate::dither::{DitherView, block_dither, block_parity_bit, ingested, lfsr_steps};
use crate::qmf::{QmfAnalysisView, qmf_analysis_step};
use crate::tables::Variant;

verus! {

/// Sample rates the codec accepts.
pub const SAMPLE_RATES: [u32; 6] = [8_000, 16_000, 24_000, 32_000, 44_100, 48_000];

/// `sr` is one of `SAMPLE_RATES`.
pub open spec fn supported_sample_rate(sr: u32) -> bool {
    sr == 8_000 || sr == 16_000 || sr == 24_000 || sr == 32_000 || sr == 44_100 || sr == 48_000
}

/// Whether the codec accepts sample rate `sr`.
pub fn is_supported_sample_rate(sr: u32) -> (b: bool)
    ensures
        b == supported_sample_rate(sr),
{
    let mut i: usize = 0;
    while i < 6
        invariant
            i <= 6,
            forall|j: int| 0 <= j < i ==> SAMPLE_RATES[j] != sr,
            SAMPLE_RATES@ == seq![8_000u32, 16_000, 24_000, 32_000, 44_100, 48_000],
        decreases 6 - i,
    {
        if SAMPLE_RATES[i] == sr {
            return true;
        }
        i = i + 1;
    }
    false
}

/// `id` spells `lit`, character by character.
fn str_equals(id: &str, lit: &str) -> (b: bool)
    ensures
        b == (id@ == lit@),
{
    let n = id.unicode_len();
    let m = lit.unicode_len();
    if n != m {
        return false;
    }
    let mut i: usize = 0;
    while i < n
        invariant
            n == id@.len(),
            m == lit@.len(),
            n == m,
            i <= n,
            forall|j: int| 0 <= j < i ==> id@[j] == lit@[j],
        decreases n - i,
    {
        if id.get_char(i) != lit.get_char(i) {
            return false;
        }
        i = i + 1;
    }
    proof {
        assert(id@ =~= lit@);
    }
    true
}

/// The variant a codec id names: `"aptx"` is classic, `"aptx_hd"` is HD.
pub open spec fn variant_of_codec_id(id: Seq<char>) -> Option<Variant> {
    if id == "aptx"@ {
        Some(Variant::Classic)
    } else if id == "aptx_hd"@ {
        Some(Variant::Hd)
    } else {
        None
    }
}

/// The variant of a codec id, if it names one.
pub fn variant_from_codec_id(id: &str) -> (v: Option<Variant>)
    ensures
        v == variant_of_codec_id(id@),
{
    if str_equals(id, "aptx") {
        Some(Variant::Classic)
    } else if str_equals(id, "aptx_hd") {
        Some(Variant::Hd)
    } else {
        None
    }
}

/// Stream bit rate: `block_bytes` bytes every 4 PCM frames.
pub open spec fn stream_bit_rate_spec(variant: Variant, sample_rate: u32) -> u64 {
    (sample_rate as int * variant.spec_block_bytes() as int * 8 / 4) as u64
}

/// Bit rate of the encoded stream at `sample_rate`.
pub fn stream_bit_rate(variant: Variant, sample_rate: u32) -> (r: u64)
    ensures
        r == stream_bit_rate_spec(variant, sample_rate),
{
    let bytes_per_block = variant.block_bytes() as u64;
    (sample_rate as u64) * bytes_per_block * 8 / 4
}

/// Why a stream configuration is refused.
#[derive(Debug, Clone, Copy, PartialEq, Eq, Structural)]
pub enum ConfigError {
    /// The sample rate is not one of `SAMPLE_RATES`.
    UnsupportedSampleRate(u32),
    /// Only stereo streams are supported; holds the channel count asked for.
    UnsupportedChannels(u16),
    /// The input sample format is not signed 16-bit.
    UnsupportedSampleFormat,
    /// The codec id names no aptX variant.
    UnknownCodecId,
}

/// An accepted stream configuration.
#[derive(Debug, Clone, Copy, PartialEq, Eq, Structural)]
pub struct StreamConfig {
    pub variant: Variant,
    pub sample_rate: u32,
    pub bit_rate: u64,
}

/// The outcome of checking an encoder configuration: the sample rate
/// defaults to 44 100 Hz, the channel count to 2 and the sample format to
/// S16; each is checked in that order, then the codec id.
pub open spec fn encoder_config_spec(
    sample_rate: Option<u32>,
    channels: Option<u16>,
    sample_format_is_s16: Option<bool>,
    codec_id: Seq<char>,
) -> Result<StreamConfig, ConfigError> {
    let sr = match sample_rate {
        Some(r) => r,
        None => 44_100u32,
    };
    let ch = match channels {
        Some(c) => c,
        None => 2u16,
    };
    let s16 = match sample_format_is_s16 {
        Some(b) => b,
        None => true,
    };
    if !supported_sample_rate(sr) {
        Err(ConfigError::UnsupportedSampleRate(sr))
    } else if ch != 2 {
        Err(ConfigError::UnsupportedChannels(ch))
    } else if !s16 {
        Err(ConfigError::UnsupportedSampleFormat)
    } else {
        match variant_of_codec_id(codec_id) {
            Some(v) => Ok(
                StreamConfig { variant: v, sample_rate: sr, bit_rate: stream_bit_rate_spec(v, sr) },
            ),
            None => Err(ConfigError::UnknownCodecId),
        }
    }
}

/// Check an encoder configuration (the decisions of building an encoder).
pub fn encoder_config(
    sample_rate: Option<u32>,
    channels: Option<u16>,
    sample_format_is_s16: Option<bool>,
    codec_id: &str,
) -> (r: Result<StreamConfig, ConfigError>)
    ensures
        r == encoder_config_spec(sample_rate, channels, sample_format_is_s16, codec_id@),
{
    let sr = match sample_rate {
        Some(r) => r,
        None => 44_100,
    };
    if !is_supported_sample_rate(sr) {
        return Err(ConfigError::UnsupportedSampleRate(sr));
    }
    let ch = match channels {
        Some(c) => c,
        None => 2,
    };
    if ch != 2 {
        return Err(ConfigError::UnsupportedChannels(ch));
    }
    let s16 = match sample_format_is_s16 {
        Some(b) => b,
        None => true,
    };
    if !s16 {
        return Err(ConfigError::UnsupportedSampleFormat);
    }
    match variant_from_codec_id(codec_id) {
        Some(v) => Ok(StreamConfig { variant: v, sample_rate: sr, bit_rate: stream_bit_rate(v, sr) }),
        None => Err(ConfigError::UnknownCodecId),
    }
}

// ---------------------------------------------------------------------------
// Block encoding
// ---------------------------------------------------------------------------

/// The error at flat position `k`.
pub open spec fn error_at(errs: [[i32; 4]; 2], k: int) -> i32 {
    errs[k / 4][k % 4]
}

/// The first position among `0..k` of the smallest error (0 when `k <= 1`).
pub open spec fn first_min_index(errs: [[i32; 4]; 2], k: int) -> int
    decreases k,
{
    if k <= 1 {
        0
    } else {
        let m = first_min_index(errs, k - 1);
        if error_at(errs, k - 1) < error_at(errs, m) {
            k - 1
        } else {
            m
        }
    }
}

/// A codeword moved by one towards the band's representable range: up
/// when it is not positive, down otherwise.
pub open spec fn flip_codeword(c: i32) -> i32 {
    if c <= 0 {
        (c + 1) as i32
    } else {
        (c - 1) as i32
    }
}

/// The codewords after parity injection: unchanged when the block parity
/// already equals the required one, else the codeword with the smallest
/// error (first in channel-then-subband order) moves by one.
pub open spec fn parity_adjusted(cws: [[i32; 4]; 2], errs: [[i32; 4]; 2], dpl: u8, dpr: u8, sync_idx: u8) -> [[i32; 4]; 2] {
    if block_parity_spec(cws, dpl, dpr) != parity_required(sync_idx) {
        let k = first_min_index(errs, 8);
        with_codeword(cws, k, flip_codeword(codeword_at(cws, k)))
    } else {
        cws
    }
}

/// The encoder state that the block coding reads and writes.
pub struct EncoderCoreView {
    pub left: EncoderChannelView,
    pub right: EncoderChannelView,
    pub sync_idx: u8,
}

/// PCM sample `pcm[i]` promoted to the 24-bit working range (times 2^8).
pub open spec fn promoted(pcm: Seq<i16>, i: int) -> i32 {
    (pcm[i] as int * 256) as i32
}

/// The encoder channel after a block: new QMF state, dither history after
/// the draw and the ingestion of its LF/MLF/MHF codewords, updated bands.
#[verifier::opaque]
pub open spec fn next_encoder_channel(
    ch: EncoderChannelView,
    qmf: QmfAnalysisView,
    cws: [i32; 4],
) -> EncoderChannelView {
    let h = ch.dither.history;
    EncoderChannelView {
        bands: reconstructed_bands(ch.bands, cws, block_dither(h)),
        qmf,
        dither: DitherView {
            history: ingested(lfsr_steps(h, 4), cws[0], cws[1], cws[2]),
            parity: block_parity_bit(h),
        },
    }
}

/// The codewords that the encoder emits for a block of 8 interleaved PCM
/// samples (left, right, left, ...), after parity injection.
#[verifier::opaque]
pub open spec fn encoded_codewords(s: EncoderCoreView, pcm: Seq<i16>) -> [[i32; 4]; 2] {
    let (_ql, sbl) = qmf_analysis_step(
        s.left.qmf,
        [promoted(pcm, 0), promoted(pcm, 2), promoted(pcm, 4), promoted(pcm, 6)],
    );
    let (_qr, sbr) = qmf_analysis_step(
        s.right.qmf,
        [promoted(pcm, 1), promoted(pcm, 3), promoted(pcm, 5), promoted(pcm, 7)],
    );
    let (cwl, errl) = quantize_bands(s.left.bands, sbl);
    let (cwr, errr) = quantize_bands(s.right.bands, sbr);
    parity_adjusted(
        [cwl, cwr],
        [errl, errr],
        block_parity_bit(s.left.dither.history),
        block_parity_bit(s.right.dither.history),
        s.sync_idx,
    )
}

/// One block of encoding: the next encoder state and the block's bytes.
#[verifier::opaque]
pub open spec fn encode_block_spec(variant: Variant, s: EncoderCoreView, pcm: Seq<i16>) -> (
    EncoderCoreView,
    Seq<u8>,
) {
    let (ql, _sbl) = qmf_analysis_step(
        s.left.qmf,
        [promoted(pcm, 0), promoted(pcm, 2), promoted(pcm, 4), promoted(pcm, 6)],
    );
    let (qr, _sbr) = qmf_analysis_step(
        s.right.qmf,
        [promoted(pcm, 1), promoted(pcm, 3), promoted(pcm, 5), promoted(pcm, 7)],
    );
    let cws = encoded_codewords(s, pcm);
    (
        EncoderCoreView {
            left: next_encoder_channel(s.left, ql, cws[0]),
            right: next_encoder_channel(s.right, qr, cws[1]),
            sync_idx: ((s.sync_idx + 1) % 8) as u8,
        },
        pack_block_spec(variant, pack_channel_spec(variant, cws[0]), pack_channel_spec(variant, cws[1])),
    )
}

/// The first position of the smallest of the eight errors.
fn min_error_position(errs: &[[i32; 4]; 2]) -> (k: usize)
    ensures
        k == first_min_index(*errs, 8),
        k < 8,
{
    let mut best: usize = 0;
    let mut best_err: i32 = i32::MAX;
    let mut k: usize = 0;
    while k < 8
        invariant
            k <= 8,
            best < 8,
            k >= 1 ==> best == first_min_index(*errs, k as int) && best_err == error_at(*errs, best as int),
            k == 0 ==> best == 0 && best_err == i32::MAX,
        decreases 8 - k,
    {
        let e = errs[k / 4][k % 4];
        if e < best_err {
            best_err = e;
            best = k;
        }
        k = k + 1;
    }
    best
}

/// Move the codeword at flat position `k` by one (see `flip_codeword`).
fn flip_at(cws: &mut [[i32; 4]; 2], k: usize)
    requires
        k < 8,
        -0x10000 <= codeword_at(*old(cws), k as int) <= 0x10000,
    ensures
        *final(cws) == with_codeword(*old(cws), k as int, flip_codeword(codeword_at(*old(cws), k as int))),
{
    let ch = k / 4;
    let band = k % 4;
    let cw = cws[ch][band];
    cws[ch][band] = if cw <= 0 {
        cw + 1
    } else {
        cw - 1
    };
    proof {
        let w = with_codeword(*old(cws), k as int, flip_codeword(codeword_at(*old(cws), k as int)));
        assert(cws[0] =~= w[0]);
        assert(cws[1] =~= w[1]);
        assert(*cws =~= w);
    }
}

/// A packet of encoded blocks.
pub struct EncodedPacket {
    pub data: Vec<u8>,
    pub pts: Option<i64>,
    pub duration: i64,
}

/// The contents of an encoded packet.
pub struct EncodedPacketView {
    pub data: Seq<u8>,
    pub pts: Option<i64>,
    pub duration: i64,
}

impl View for EncodedPacket {
    type V = EncodedPacketView;

    open spec fn view(&self) -> EncodedPacketView {
        EncodedPacketView { data: self.data@, pts: self.pts, duration: self.duration }
    }
}

/// The aptX encoder: per-channel codec state, the sync position, the PCM
/// carried over between frames and the queue of encoded packets.
pub struct AptxEncoder {
    variant: Variant,
    sample_rate: u32,
    channels: [EncoderChannel; 2],
    sync_idx: u8,
    carry: Vec<i16>,
    pending: VecDeque<EncodedPacket>,
    next_pts: i64,
    enc_buf: Vec<u8>,
}

impl AptxEncoder {
    /// The block-coding state.
    pub closed spec fn block_state(&self) -> EncoderCoreView {
        EncoderCoreView { left: self.channels[0]@, right: self.channels[1]@, sync_idx: self.sync_idx }
    }

    pub closed spec fn spec_variant(&self) -> Variant {
        self.variant
    }

    pub closed spec fn spec_sample_rate(&self) -> u32 {
        self.sample_rate
    }

    /// Interleaved PCM samples waiting for a full block.
    pub closed spec fn carried(&self) -> Seq<i16> {
        self.carry@
    }

    /// Encoded packets not yet received.
    pub closed spec fn queued(&self) -> Seq<EncodedPacketView> {
        self.pending@.map_values(|p: EncodedPacket| p@)
    }

    /// Timestamp of the next packet when a frame carries none.
    pub closed spec fn spec_next_pts(&self) -> i64 {
        self.next_pts
    }

    pub closed spec fn wf(&self) -> bool {
        &&& self.channels[0].wf()
        &&& self.channels[1].wf()
        &&& self.channels[0].variant == self.variant
        &&& self.channels[1].variant == self.variant
        &&& self.sync_idx < 8
        &&& self.carry@.len() < 8
    }

    /// QMF analysis, dither draw, quantization and parity injection of one
    /// block: the codewords to emit and the dither of each channel.
    fn analyze_block(&mut self, pcm: [i16; 8]) -> (r: ([[i32; 4]; 2], [[i32; 4]; 2]))
        requires
            old(self).wf(),
            pcm@.len() == 8,
        ensures
            final(self).wf(),
            r.0 == encoded_codewords(old(self).block_state(), pcm@),
            r.1 == [
                block_dither(old(self).block_state().left.dither.history),
                block_dither(old(self).block_state().right.dither.history),
            ],
            forall|c: int, b: int| 0 <= c < 2 && 0 <= b < 4 ==> -0x10000 <= #[trigger] r.0[c][b] <= 0x10000,
            final(self).channels[0].bands == old(self).channels[0].bands,
            final(self).channels[1].bands == old(self).channels[1].bands,
            final(self).channels[0].qmf@ == qmf_analysis_step(
                old(self).block_state().left.qmf,
                [promoted(pcm@, 0), promoted(pcm@, 2), promoted(pcm@, 4), promoted(pcm@, 6)],
            ).0,
            final(self).channels[1].qmf@ == qmf_analysis_step(
                old(self).block_state().right.qmf,
                [promoted(pcm@, 1), promoted(pcm@, 3), promoted(pcm@, 5), promoted(pcm@, 7)],
            ).0,
            final(self).channels[0].dither@ == (DitherView {
                history: lfsr_steps(old(self).block_state().left.dither.history, 4),
                parity: block_parity_bit(old(self).block_state().left.dither.history),
            }),
            final(self).channels[1].dither@ == (DitherView {
                history: lfsr_steps(old(self).block_state().right.dither.history, 4),
                parity: block_parity_bit(old(self).block_state().right.dither.history),
            }),
            final(self).variant == old(self).variant,
            final(self).sample_rate == old(self).sample_rate,
            final(self).sync_idx == old(self).sync_idx,
            final(self).carry == old(self).carry,
            final(self).pending == old(self).pending,
            final(self).next_pts == old(self).next_pts,
            final(self).enc_buf == old(self).enc_buf,
    {
        let ghost s0 = self.block_state();
        let mut left = [0i32; 4];
        let mut right = [0i32; 4];
        let mut i: usize = 0;
        while i < 4
            invariant
                i <= 4,
                pcm@.len() == 8,
                forall|j: int| 0 <= j < i ==> left[j] == promoted(pcm@, 2 * j),
                forall|j: int| 0 <= j < i ==> right[j] == promoted(pcm@, 2 * j + 1),
            decreases 4 - i,
        {
            // Promote to the 24-bit working range.
            let l = pcm[2 * i] as i32;
            let r = pcm[2 * i + 1] as i32;
            assert(pcm@[2 * i as int] == pcm[2 * i as int]);
            proof {
                assert(l << 8i32 == l * 256 && r << 8i32 == r * 256) by (bit_vector)
                    requires
                        -32768 <= l <= 32767,
                        -32768 <= r <= 32767,
                ;
            }
            left[i] = l << 8i32;
            right[i] = r << 8i32;
            i = i + 1;
        }
        proof {
            assert(left =~= [promoted(pcm@, 0), promoted(pcm@, 2), promoted(pcm@, 4), promoted(pcm@, 6)]);
            assert(right =~= [promoted(pcm@, 1), promoted(pcm@, 3), promoted(pcm@, 5), promoted(pcm@, 7)]);
        }

        // QMF analysis per channel.
        let sb_left = self.channels[0].qmf.process(left);
        let sb_right = self.channels[1].qmf.process(right);

        // Dither per channel.
        let (dith_left, parity_left) = self.channels[0].dither.next_block();
        let (dith_right, parity_right) = self.channels[1].dither.next_block();

        // Per subband: predict, quantize.
        let (cw_left, err_left) = quantize_channel(&self.channels[0].bands, self.variant, sb_left);
        let (cw_right, err_right) = quantize_channel(&self.channels[1].bands, self.variant, sb_right);
        let mut codewords = [cw_left, cw_right];
        let errors = [err_left, err_right];

        // Parity injection: if the parity is not the one required at this
        // position of the sync cycle, move the smallest-error codeword by one.
        let required_parity: u8 = if self.sync_idx == 7 {
            1
        } else {
            0
        };
        let actual_parity = block_parity(&codewords, parity_left, parity_right);
        if actual_parity != required_parity {
            let best = min_error_position(&errors);
            flip_at(&mut codewords, best);
        }
        proof {
            reveal(encoded_codewords);
            assert(codewords == encoded_codewords(s0, pcm@));
        }
        (codewords, [dith_left, dith_right])
    }

    /// Encode exactly one stereo block (8 interleaved samples) and append
    /// its bytes to the block buffer.
    fn encode_block(&mut self, pcm: [i16; 8])
        requires
            old(self).wf(),
            pcm@.len() == 8,
        ensures
            final(self).wf(),
            final(self).block_state() == encode_block_spec(old(self).variant, old(self).block_state(), pcm@).0,
            final(self).enc_buf@ == old(self).enc_buf@ + encode_block_spec(
                old(self).variant,
                old(self).block_state(),
                pcm@,
            ).1,
            final(self).variant == old(self).variant,
            final(self).sample_rate == old(self).sample_rate,
            final(self).carry == old(self).carry,
            final(self).pending == old(self).pending,
            final(self).next_pts == old(self).next_pts,
    {
        let ghost s0 = self.block_state();
        let (codewords, dith) = self.analyze_block(pcm);

        // Decode-side update: invert quantize, update state.
        let _ = reconstruct_channel(&mut self.channels[0].bands, self.variant, codewords[0], dith[0]);
        let _ = reconstruct_channel(&mut self.channels[1].bands, self.variant, codewords[1], dith[1]);

        // Ingest LF/MLF/MHF codewords into each channel's dither history
        // (HF is excluded: its low bit carries the parity sync).
        self.channels[0].dither.ingest(codewords[0][0], codewords[0][1], codewords[0][2]);
        self.channels[1].dither.ingest(codewords[1][0], codewords[1][1], codewords[1][2]);

        // Pack into the 4-byte (classic) or 6-byte (HD) block.
        let left_packed = pack_channel(self.variant, codewords[0]);
        let right_packed = pack_channel(self.variant, codewords[1]);
        let bytes = pack_block(self.variant, left_packed, right_packed);
        append_bytes(&mut self.enc_buf, &bytes);
        self.sync_idx = (self.sync_idx + 1) % 8;
        proof {
            reveal(encode_block_spec);
            reveal(next_encoder_channel);
            assert(self.channels[0]@ == next_encoder_channel(s0.left, self.channels[0].qmf@, codewords[0]));
            assert(self.channels[1]@ == next_encoder_channel(s0.right, self.channels[1].qmf@, codewords[1]));
        }
    }
}

/// The interleaved signed 16-bit little-endian samples of `bytes`.
pub open spec fn le_samples(bytes: Seq<u8>) -> Seq<i16> {
    Seq::new(bytes.len() / 2, |i: int| le_sample(bytes[2 * i], bytes[2 * i + 1]))
}

/// The signed 16-bit value with low byte `lo` and high byte `hi`.
pub open spec fn le_sample(lo: u8, hi: u8) -> i16 {
    let v = lo as int + 256 * hi as int;
    (if v >= 0x8000 {
        v - 0x10000
    } else {
        v
    }) as i16
}

/// Encoding the first `n` blocks of `samples`: the state after them and
/// their bytes, block after block.
pub open spec fn encode_blocks_spec(variant: Variant, s: EncoderCoreView, samples: Seq<i16>, n: nat) -> (
    EncoderCoreView,
    Seq<u8>,
)
    decreases n,
{
    if n == 0 {
        (s, Seq::empty())
    } else {
        let (s1, b1) = encode_blocks_spec(variant, s, samples, (n - 1) as nat);
        let (s2, b2) = encode_block_spec(variant, s1, samples.subrange(8 * (n - 1), (8 * n) as int));
        (s2, b1 + b2)
    }
}

/// Why a frame is refused.
#[derive(Debug, Clone, Copy, PartialEq, Eq, Structural)]
pub enum EncodeError {
    /// The frame's data is not a whole number of 16-bit samples.
    OddByteCount,
}

/// The timestamp a packet from this encoder takes: the frame's, else the
/// running one.
pub open spec fn packet_pts(pts: Option<i64>, next_pts: i64) -> i64 {
    match pts {
        Some(p) => p,
        None => next_pts,
    }
}

/// One block is `block_bytes` long.
pub proof fn lemma_encode_block_size(variant: Variant, s: EncoderCoreView, pcm: Seq<i16>)
    ensures
        encode_block_spec(variant, s, pcm).1.len() == variant.spec_block_bytes(),
{
    reveal(encode_block_spec);
}

/// `n` blocks are `n * block_bytes` long.
pub proof fn lemma_encode_blocks_size(variant: Variant, s: EncoderCoreView, samples: Seq<i16>, n: nat)
    ensures
        encode_blocks_spec(variant, s, samples, n).1.len() == n * variant.spec_block_bytes(),
    decreases n,
{
    if n > 0 {
        lemma_encode_blocks_size(variant, s, samples, (n - 1) as nat);
        let (s1, b1) = encode_blocks_spec(variant, s, samples, (n - 1) as nat);
        let blk = samples.subrange(8 * (n - 1), (8 * n) as int);
        lemma_encode_block_size(variant, s1, blk);
        assert(encode_blocks_spec(variant, s, samples, n).1 == b1 + encode_block_spec(variant, s1, blk).1);
        let m = (n - 1) as nat;
        let bb = variant.spec_block_bytes() as int;
        assert(b1.len() == m * bb);
        assert(m * bb + bb == n * bb) by (nonlinear_arith)
            requires
                m + 1 == n,
        ;
        assert(encode_block_spec(variant, s1, blk).1.len() == bb);
        assert((b1 + encode_block_spec(variant, s1, blk).1).len() == n * bb);
    } else {
        assert(encode_blocks_spec(variant, s, samples, n).1.len() == 0);
    }
}

/// Encoding `k` blocks reads only the first `8 * k` samples.
pub(crate) proof fn lemma_encode_blocks_prefix(variant: Variant, s: EncoderCoreView, x: Seq<i16>, y: Seq<i16>, k: nat)
    requires
        8 * k as int <= x.len(),
        8 * k as int <= y.len(),
        x.subrange(0, 8 * k as int) == y.subrange(0, 8 * k as int),
    ensures
        encode_blocks_spec(variant, s, x, k) == encode_blocks_spec(variant, s, y, k),
    decreases k,
{
    if k > 0 {
        let j = 8 * (k - 1);
        assert(x.subrange(0, j) =~= x.subrange(0, 8 * k as int).subrange(0, j));
        assert(y.subrange(0, j) =~= y.subrange(0, 8 * k as int).subrange(0, j));
        lemma_encode_blocks_prefix(variant, s, x, y, (k - 1) as nat);
        assert forall|i: int| j <= i < 8 * k as int implies #[trigger] x[i] == y[i] by {
            let xs = x.subrange(0, 8 * k as int);
            let ys = y.subrange(0, 8 * k as int);
            assert(xs[i] == x[i]);
            assert(ys[i] == y[i]);
            assert(xs[i] == ys[i]);
        }
        assert(x.subrange(j, 8 * k as int) =~= y.subrange(j, 8 * k as int));
    }
}

/// Encoding `m + n` blocks is encoding `m` blocks, then `n` blocks of the
/// samples that follow them.
proof fn lemma_encode_blocks_split(variant: Variant, s: EncoderCoreView, x: Seq<i16>, m: nat, n: nat)
    requires
        8 * (m + n) as int <= x.len(),
    ensures
        ({
            let (s1, b1) = encode_blocks_spec(variant, s, x, m);
            let (s2, b2) = encode_blocks_spec(variant, s1, x.subrange(8 * m as int, x.len() as int), n);
            encode_blocks_spec(variant, s, x, m + n) == (s2, b1 + b2)
        }),
    decreases n,
{
    let (s1, b1) = encode_blocks_spec(variant, s, x, m);
    let xr = x.subrange(8 * m as int, x.len() as int);
    if n == 0 {
        assert(b1 + Seq::<u8>::empty() =~= b1);
    } else {
        let n0 = (n - 1) as nat;
        lemma_encode_blocks_split(variant, s, x, m, n0);
        let (s2p, b2p) = encode_blocks_spec(variant, s1, xr, n0);
        let blk = x.subrange(8 * (m + n0) as int, 8 * (m + n) as int);
        assert(xr.subrange(8 * n0 as int, 8 * n as int) =~= blk);
        let (s3, bb) = encode_block_spec(variant, s2p, blk);
        assert((b1 + b2p) + bb =~= b1 + (b2p + bb));
        assert(encode_blocks_spec(variant, s1, xr, n) == (s3, b2p + bb));
        assert(encode_blocks_spec(variant, s, x, m + n) == (s3, (b1 + b2p) + bb));
    }
}

/// Two frames encode as their concatenation: sending the samples `a` (the
/// carried samples and a frame), carrying their incomplete tail, and then
/// the samples `b` of the next frame gives the same block state, the same
/// bytes in total and the same carry as sending `a + b` at once.
pub proof fn lemma_encode_framing(variant: Variant, s: EncoderCoreView, a: Seq<i16>, b: Seq<i16>)
    ensures
        ({
            let n1 = a.len() / 8;
            let (s1, b1) = encode_blocks_spec(variant, s, a, n1);
            let rest = a.subrange(8 * n1 as int, a.len() as int) + b;
            let n2 = rest.len() / 8;
            let (s2, b2) = encode_blocks_spec(variant, s1, rest, n2);
            let all = a + b;
            let n = all.len() / 8;
            &&& n == n1 + n2
            &&& encode_blocks_spec(variant, s, all, n) == (s2, b1 + b2)
            &&& rest.subrange(8 * n2 as int, rest.len() as int) == all.subrange(8 * n as int, all.len() as int)
        }),
{
    let n1 = a.len() / 8;
    let rest = a.subrange(8 * n1 as int, a.len() as int) + b;
    let n2 = rest.len() / 8;
    let all = a + b;
    let n = all.len() / 8;
    assert(rest.len() == all.len() - 8 * n1 as int);
    assert(n == n1 + n2);
    assert(all.subrange(0, 8 * n1 as int) =~= a.subrange(0, 8 * n1 as int));
    lemma_encode_blocks_prefix(variant, s, all, a, n1);
    assert(all.subrange(8 * n1 as int, all.len() as int) =~= rest);
    lemma_encode_blocks_split(variant, s, all, n1, n2);
    assert(rest.subrange(8 * n2 as int, rest.len() as int) =~= all.subrange(8 * n as int, all.len() as int));
}

/// The samples of two byte strings are those of their concatenation when
/// the first holds a whole number of samples.
pub proof fn lemma_le_samples_concat(d1: Seq<u8>, d2: Seq<u8>)
    requires
        d1.len() % 2 == 0,
    ensures
        le_samples(d1 + d2) == le_samples(d1) + le_samples(d2),
{
    let d = d1 + d2;
    assert(d.len() / 2 == d1.len() / 2 + d2.len() / 2);
    assert forall|i: int| 0 <= i < le_samples(d).len() implies #[trigger] le_samples(d)[i] == (
    le_samples(d1) + le_samples(d2))[i] by {
        if i < d1.len() / 2 {
            assert(d[2 * i] == d1[2 * i] && d[2 * i + 1] == d1[2 * i + 1]);
        } else {
            let k = i - d1.len() / 2;
            assert(2 * i == d1.len() + 2 * k);
            assert(d[2 * i] == d2[2 * k] && d[2 * i + 1] == d2[2 * k + 1]);
        }
    }
    assert(le_samples(d) =~= le_samples(d1) + le_samples(d2));
}

/// Decode one interleaved little-endian sample.
fn read_le_sample(lo: u8, hi: u8) -> (v: i16)
    ensures
        v == le_sample(lo, hi),
{
    let u = ((hi as u16) << 8u16) | (lo as u16);
    proof {
        assert(((((hi as u16) << 8u16) | (lo as u16)) as i16) as int == (if lo as int + 256 * hi as int
            >= 0x8000 {
            lo as int + 256 * hi as int - 0x10000
        } else {
            lo as int + 256 * hi as int
        })) by (bit_vector);
    }
    u as i16
}

impl AptxEncoder {
    pub fn new(sample_rate: u32, variant: Variant) -> (e: AptxEncoder)
        ensures
            e.wf(),
            e.spec_variant() == variant,
            e.spec_sample_rate() == sample_rate,
            e.carried() == Seq::<i16>::empty(),
            e.queued() == Seq::<EncodedPacketView>::empty(),
            e.spec_next_pts() == 0,
            e.block_state() == (EncoderCoreView {
                left: initial_encoder_channel(variant),
                right: initial_encoder_channel(variant),
                sync_idx: 0,
            }),
    {
        let e = AptxEncoder {
            variant,
            sample_rate,
            channels: [EncoderChannel::new(variant), EncoderChannel::new(variant)],
            sync_idx: 0,
            carry: Vec::with_capacity(8),
            pending: VecDeque::new(),
            next_pts: 0,
            enc_buf: Vec::new(),
        };
        proof {
            assert(e.queued() =~= Seq::<EncodedPacketView>::empty());
        }
        e
    }

    pub fn variant(&self) -> (v: Variant)
        ensures
            v == self.spec_variant(),
    {
        self.variant
    }

    pub fn sample_rate(&self) -> (r: u32)
        ensures
            r == self.spec_sample_rate(),
    {
        self.sample_rate
    }

    /// Timestamp the next packet takes when its frame carries none.
    pub fn next_pts(&self) -> (p: i64)
        ensures
            p == self.spec_next_pts(),
    {
        self.next_pts
    }

    /// Number of interleaved samples waiting for a whole block.
    pub fn carried_len(&self) -> (n: usize)
        ensures
            n == self.carried().len(),
    {
        self.carry.len()
    }

    /// Accept a frame of interleaved signed 16-bit little-endian PCM (left,
    /// right, ...): prepend the carried samples, encode every whole block
    /// of 8, carry the rest, and queue one packet with the blocks' bytes.
    pub fn send_frame(&mut self, data: &[u8], pts: Option<i64>) -> (r: Result<(), EncodeError>)
        requires
            old(self).wf(),
            ({
                let n = (old(self).carried().len() + data@.len() / 2) / 8;
                data@.len() % 2 == 0 && n > 0 ==> packet_pts(pts, old(self).spec_next_pts()) + 4
                    * n <= i64::MAX
            }),
        ensures
            final(self).wf(),
            final(self).spec_variant() == old(self).spec_variant(),
            final(self).spec_sample_rate() == old(self).spec_sample_rate(),
            data@.len() % 2 != 0 ==> r == Err::<(), EncodeError>(EncodeError::OddByteCount)
                && final(self).block_state() == old(self).block_state()
                && final(self).carried() == old(self).carried()
                && final(self).queued() == old(self).queued()
                && final(self).spec_next_pts() == old(self).spec_next_pts(),
            data@.len() % 2 == 0 ==> r == Ok::<(), EncodeError>(()) && ({
                let samples = old(self).carried() + le_samples(data@);
                let n = samples.len() / 8;
                let (s2, bytes) = encode_blocks_spec(
                    old(self).spec_variant(),
                    old(self).block_state(),
                    samples,
                    n,
                );
                let p = packet_pts(pts, old(self).spec_next_pts());
                &&& final(self).block_state() == s2
                &&& final(self).carried() == samples.subrange((8 * n) as int, samples.len() as int)
                &&& bytes.len() == n * old(self).spec_variant().spec_block_bytes()
                &&& n > 0 ==> final(self).queued() == old(self).queued().push(
                    EncodedPacketView { data: bytes, pts: Some(p), duration: (4 * n) as i64 },
                ) && final(self).spec_next_pts() == p + 4 * n
                &&& n == 0 ==> final(self).queued() == old(self).queued()
                    && final(self).spec_next_pts() == old(self).spec_next_pts()
            }),
    {
        if data.len() % 2 != 0 {
            return Err(EncodeError::OddByteCount);
        }
        // Decode the interleaved S16LE data, after the carried samples.
        let mut samples: Vec<i16> = Vec::new();
        core::mem::swap(&mut samples, &mut self.carry);
        let ghost carried = samples@;
        let dlen = data.len();
        let half = dlen / 2;
        assert(2 * half <= dlen);
        let mut i: usize = 0;
        while i < half
            invariant
                half == data@.len() / 2,
                dlen == data@.len(),
                2 * half <= dlen,
                i <= half,
                samples@ == carried + le_samples(data@).subrange(0, i as int),
                carried.len() < 8,
            decreases half - i,
        {
            assert(2 * i + 1 < data@.len());
            let v = read_le_sample(data[2 * i], data[2 * i + 1]);
            samples.push(v);
            i = i + 1;
            proof {
                assert(le_samples(data@).subrange(0, i as int) =~= le_samples(data@).subrange(
                    0,
                    i - 1,
                ).push(v));
            }
        }
        proof {
            assert(le_samples(data@).subrange(0, half as int) =~= le_samples(data@));
        }
        let ghost all = samples@;
        let ghost s0 = self.block_state();
        let slen = samples.len();
        let n_full = slen / 8;
        assert(8 * n_full <= slen);
        self.enc_buf.clear();
        let mut b: usize = 0;
        while b < n_full
            invariant
                self.wf(),
                b <= n_full,
                n_full == all.len() / 8,
                8 * n_full <= slen,
                slen == all.len(),
                samples@ == all,
                self.variant == old(self).variant,
                self.sample_rate == old(self).sample_rate,
                self.pending == old(self).pending,
                self.next_pts == old(self).next_pts,
                (self.block_state(), self.enc_buf@) == encode_blocks_spec(self.variant, s0, all, b as nat),
            decreases n_full - b,
        {
            let mut block = [0i16; 8];
            let mut j: usize = 0;
            while j < 8
                invariant
                    j <= 8,
                    b < n_full,
                    n_full == all.len() / 8,
                    8 * n_full <= slen,
                    slen == all.len(),
                    samples@ == all,
                    forall|t: int| 0 <= t < j ==> block[t] == all[8 * b + t],
                decreases 8 - j,
            {
                assert(b * 8 + j < all.len());
                block[j] = samples[b * 8 + j];
                j = j + 1;
            }
            proof {
                assert(block@ =~= all.subrange(8 * b, 8 * (b + 1)));
            }
            self.encode_block(block);
            b = b + 1;
        }
        // Carry the trailing partial block.
        let consumed = n_full * 8;
        let mut rest: Vec<i16> = Vec::with_capacity(8);
        let mut k: usize = consumed;
        while k < samples.len()
            invariant
                consumed <= k <= samples@.len(),
                samples@ == all,
                consumed == 8 * n_full,
                n_full == all.len() / 8,
                rest@ == all.subrange(consumed as int, k as int),
            decreases samples@.len() - k,
        {
            rest.push(samples[k]);
            k = k + 1;
            proof {
                assert(all.subrange(consumed as int, k as int) =~= all.subrange(consumed as int, k - 1).push(all[k - 1]));
            }
        }
        self.carry = rest;
        proof {
            lemma_encode_blocks_size(self.variant, s0, all, n_full as nat);
        }
        let n_in = consumed / 2;
        if self.enc_buf.len() > 0 {
            let p = match pts {
                Some(p) => p,
                None => self.next_pts,
            };
            self.next_pts = p + n_in as i64;
            let mut data_out: Vec<u8> = Vec::new();
            core::mem::swap(&mut data_out, &mut self.enc_buf);
            let pkt = EncodedPacket { data: data_out, pts: Some(p), duration: n_in as i64 };
            let ghost q = self.pending@;
            self.pending.push_back(pkt);
            proof {
                assert(self.queued() =~= old(self).queued().push(
                    EncodedPacketView { data: all_bytes_of(self.variant, s0, all, n_full as nat), pts: Some(p), duration: (4 * n_full) as i64 },
                ));
            }
        }
        Ok(())
    }
}

impl AptxEncoder {
    /// The next queued packet, if any (the caller needs more input when none).
    pub fn receive_packet(&mut self) -> (p: Option<EncodedPacket>)
        requires
            old(self).wf(),
        ensures
            final(self).wf(),
            final(self).block_state() == old(self).block_state(),
            final(self).carried() == old(self).carried(),
            final(self).spec_next_pts() == old(self).spec_next_pts(),
            final(self).spec_variant() == old(self).spec_variant(),
            final(self).spec_sample_rate() == old(self).spec_sample_rate(),
            old(self).queued().len() == 0 ==> p.is_none() && final(self).queued() == old(self).queued(),
            old(self).queued().len() > 0 ==> p.is_some() && p.unwrap()@ == old(self).queued()[0]
                && final(self).queued() == old(self).queued().drop_first(),
    {
        let p = self.pending.pop_front();
        proof {
            if old(self).queued().len() == 0 {
                assert(self.queued() =~= old(self).queued());
            } else {
                assert(self.queued() =~= old(self).queued().drop_first());
            }
        }
        p
    }

    /// Pad the carried samples with zeros up to one block, encode it, and
    /// queue the final packet (4 PCM frames long).
    pub fn flush(&mut self)
        requires
            old(self).wf(),
            old(self).carried().len() > 0 ==> old(self).spec_next_pts() + 4 <= i64::MAX,
        ensures
            final(self).wf(),
            final(self).spec_variant() == old(self).spec_variant(),
            final(self).spec_sample_rate() == old(self).spec_sample_rate(),
            old(self).carried().len() == 0 ==> final(self).block_state() == old(self).block_state()
                && final(self).carried() == old(self).carried()
                && final(self).queued() == old(self).queued()
                && final(self).spec_next_pts() == old(self).spec_next_pts(),
            old(self).carried().len() > 0 ==> ({
                let pcm = old(self).carried() + Seq::new(
                    (8 - old(self).carried().len()) as nat,
                    |i: int| 0i16,
                );
                let (s2, bytes) = encode_block_spec(old(self).spec_variant(), old(self).block_state(), pcm);
                &&& final(self).block_state() == s2
                &&& final(self).carried() == Seq::<i16>::empty()
                &&& final(self).queued() == old(self).queued().push(
                    EncodedPacketView { data: bytes, pts: Some(old(self).spec_next_pts()), duration: 4 },
                )
                &&& final(self).spec_next_pts() == old(self).spec_next_pts() + 4
            }),
    {
        if self.carry.len() > 0 {
            let ghost pcm = self.carry@ + Seq::new((8 - self.carry@.len()) as nat, |i: int| 0i16);
            let mut block = [0i16; 8];
            let mut j: usize = 0;
            while j < self.carry.len()
                invariant
                    j <= self.carry@.len(),
                    self.carry@.len() < 8,
                    forall|t: int| 0 <= t < j ==> block[t] == self.carry@[t],
                    forall|t: int| j <= t < 8 ==> block[t] == 0,
                decreases self.carry@.len() - j,
            {
                block[j] = self.carry[j];
                j = j + 1;
            }
            proof {
                assert(block@ =~= pcm);
            }
            self.enc_buf.clear();
            self.carry.clear();
            self.encode_block(block);
            let pts = self.next_pts;
            self.next_pts = self.next_pts + 4;
            let mut data_out: Vec<u8> = Vec::new();
            core::mem::swap(&mut data_out, &mut self.enc_buf);
            self.pending.push_back(EncodedPacket { data: data_out, pts: Some(pts), duration: 4 });
            proof {
                assert(self.queued() =~= old(self).queued().push(
                    EncodedPacketView {
                        data: encode_block_spec(old(self).variant, old(self).block_state(), pcm).1,
                        pts: Some(pts),
                        duration: 4,
                    },
                ));
            }
        }
    }
}

/// The bytes of the first `n` blocks.
pub open spec fn all_bytes_of(variant: Variant, s: EncoderCoreView, samples: Seq<i16>, n: nat) -> Seq<u8> {
    encode_blocks_spec(variant, s, samples, n).1
}

/// Append `bytes` to `buf`.
fn append_bytes(buf: &mut Vec<u8>, bytes: &Vec<u8>)
    ensures
        final(buf)@ == old(buf)@ + bytes@,
        final(buf)@.subrange(0, old(buf)@.len() as int) == old(buf)@,
        final(buf)@.subrange(old(buf)@.len() as int, final(buf)@.len() as int) == bytes@,
{
    let ghost before = buf@;
    let mut k: usize = 0;
    while k < bytes.len()
        invariant
            k <= bytes@.len(),
            buf@ == before + bytes@.subrange(0, k as int),
        decreases bytes@.len() - k,
    {
        buf.push(bytes[k]);
        k = k + 1;
        proof {
            assert(bytes@.subrange(0, k as int) =~= bytes@.subrange(0, k - 1).push(bytes@[k - 1]));
        }
    }
    proof {
        assert(bytes@.subrange(0, bytes@.len() as int) =~= bytes@);
        assert(buf@.subrange(0, before.len() as int) =~= before);
        assert(buf@.subrange(before.len() as int, buf@.len() as int) =~= bytes@);
    }
}

} // verus!
