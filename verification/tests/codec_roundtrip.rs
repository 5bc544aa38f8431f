//! End-to-end encoder ↔ decoder roundtrip for both aptX variants: QMF →
//! ADPCM → parity sync → pack/unpack → ADPCM → QMF.

use oxideav_aptx::decoder::{AptxDecoder, ReceiveStatus};
use oxideav_aptx::encoder::{encoder_config, AptxEncoder, ConfigError, StreamConfig};
use oxideav_aptx::tables::Variant;
use oxideav_aptx::{CODEC_ID_CLASSIC, CODEC_ID_HD};

fn config(codec_id: &str, sample_rate: u32) -> StreamConfig {
    encoder_config(Some(sample_rate), Some(2), Some(true), codec_id).expect("config")
}

/// Interleaved s16 stereo sine of `len_pairs` PCM frames at `freq` Hz.
fn sine_stereo(len_pairs: usize, freq: f32, sample_rate: u32, amp: f32) -> Vec<i16> {
    let two_pi = 2.0_f32 * std::f32::consts::PI;
    let mut out = Vec::with_capacity(len_pairs * 2);
    for n in 0..len_pairs {
        let t = n as f32 / sample_rate as f32;
        let v = ((two_pi * freq * t).sin() * amp) as i16;
        out.push(v);
        out.push(v);
    }
    out
}

fn le_bytes(samples: &[i16]) -> Vec<u8> {
    let mut bytes = Vec::with_capacity(samples.len() * 2);
    for &s in samples {
        bytes.extend_from_slice(&s.to_le_bytes());
    }
    bytes
}

fn encode_all(cfg: &StreamConfig, pcm: &[i16]) -> Vec<Vec<u8>> {
    let mut enc = AptxEncoder::new(cfg.sample_rate, cfg.variant);
    enc.send_frame(&le_bytes(pcm), Some(0)).expect("send_frame");
    enc.flush();
    let mut packets = Vec::new();
    while let Some(pkt) = enc.receive_packet() {
        packets.push(pkt.data);
    }
    packets
}

/// Encode then decode `pcm` and return the recovered interleaved samples.
fn roundtrip(cfg: &StreamConfig, pcm: &[i16]) -> Vec<i16> {
    let mut enc = AptxEncoder::new(cfg.sample_rate, cfg.variant);
    let mut dec = AptxDecoder::new(cfg.variant, cfg.sample_rate);
    enc.send_frame(&le_bytes(pcm), Some(0)).expect("send_frame");
    enc.flush();
    let mut decoded: Vec<i16> = Vec::new();
    while let Some(pkt) = enc.receive_packet() {
        dec.send_packet(&pkt.data, pkt.pts);
        loop {
            match dec.receive_frame() {
                Ok(frame) => {
                    for chunk in frame.data.chunks_exact(2) {
                        decoded.push(i16::from_le_bytes([chunk[0], chunk[1]]));
                    }
                }
                Err(ReceiveStatus::NeedMore) => break,
                Err(ReceiveStatus::Eof) => break,
            }
        }
    }
    dec.flush();
    decoded
}

/// Best-shift PSNR (dB) between `original` and `decoded`, over shifts
/// 0..256 that absorb the cascaded QMF + ADPCM latency.
fn psnr(original: &[i16], decoded: &[i16]) -> f64 {
    let n_total = original.len().min(decoded.len());
    let skip_head = (n_total / 4).min(512);
    let mut best = f64::NEG_INFINITY;
    for delay in 0..256 {
        if skip_head + delay >= n_total {
            continue;
        }
        let n = n_total - skip_head - delay;
        let mut err = 0.0f64;
        let mut sig = 0.0f64;
        for i in 0..n {
            let x = original[skip_head + i] as f64;
            let y = decoded[skip_head + delay + i] as f64;
            err += (x - y).powi(2);
            sig += x * x;
        }
        let v = if err == 0.0 {
            200.0
        } else if sig == 0.0 {
            0.0
        } else {
            10.0 * (sig / err).log10()
        };
        if v > best {
            best = v;
        }
    }
    best
}

#[test]
fn classic_self_roundtrip_500hz_44k1() {
    let pcm = sine_stereo(22050, 500.0, 44_100, 8_000.0);
    let decoded = roundtrip(&config(CODEC_ID_CLASSIC, 44_100), &pcm);
    assert!(
        decoded.len() >= pcm.len() / 2,
        "decoder produced only {} samples vs {} input",
        decoded.len(),
        pcm.len()
    );
    let snr = psnr(&pcm, &decoded);
    println!("aptX classic 500 Hz @ 44.1 kHz self-roundtrip PSNR = {snr:.2} dB");
    assert!(
        snr > 25.0,
        "PSNR {snr:.2} dB below 25 dB classic self-roundtrip envelope"
    );
}

#[test]
fn hd_self_roundtrip_500hz_48k() {
    let pcm = sine_stereo(24000, 500.0, 48_000, 8_000.0);
    let decoded = roundtrip(&config(CODEC_ID_HD, 48_000), &pcm);
    assert!(
        decoded.len() >= pcm.len() / 2,
        "decoder produced only {} samples vs {} input",
        decoded.len(),
        pcm.len()
    );
    let snr = psnr(&pcm, &decoded);
    println!("aptX HD 500 Hz @ 48 kHz self-roundtrip PSNR = {snr:.2} dB");
    assert!(
        snr > 25.0,
        "PSNR {snr:.2} dB below 25 dB HD self-roundtrip envelope"
    );
}

#[test]
fn classic_silence_roundtrip_stays_bounded() {
    let pcm = vec![0i16; 4096];
    let decoded = roundtrip(&config(CODEC_ID_CLASSIC, 44_100), &pcm);
    assert!(!decoded.is_empty());
    let head = 64;
    for (i, &s) in decoded.iter().enumerate().skip(head) {
        assert!(
            (s as i32).abs() < 4_000,
            "silence drifted at sample {i}: {s} (limit 4000)"
        );
    }
}

#[test]
fn classic_block_size_is_4_bytes() {
    let pcm = sine_stereo(16, 1000.0, 44_100, 4000.0);
    let packets = encode_all(&config(CODEC_ID_CLASSIC, 44_100), &pcm);
    let total: usize = packets.iter().map(|p| p.len()).sum();
    assert_eq!(total, 16, "16 stereo PCM frames → 4 blocks × 4 B each");
}

#[test]
fn hd_block_size_is_6_bytes() {
    let pcm = sine_stereo(16, 1000.0, 48_000, 4000.0);
    let packets = encode_all(&config(CODEC_ID_HD, 48_000), &pcm);
    let total: usize = packets.iter().map(|p| p.len()).sum();
    assert_eq!(total, 24, "16 stereo PCM frames → 4 blocks × 6 B each");
}

#[test]
fn parity_sync_clean_stream_no_errors() {
    let pcm = sine_stereo(2048, 1000.0, 44_100, 8000.0);
    let packets = encode_all(&config(CODEC_ID_CLASSIC, 44_100), &pcm);
    let all_bytes: Vec<u8> = packets.concat();
    let mut dec = AptxDecoder::new(Variant::Classic, 44_100);
    dec.send_packet(&all_bytes, Some(0));
    assert_eq!(
        dec.parity_errors(),
        0,
        "clean encoded stream produced {} parity errors at the decoder",
        dec.parity_errors()
    );
}

#[test]
fn parity_sync_corrupted_stream_flags_errors() {
    let pcm = sine_stereo(2048, 1000.0, 44_100, 8000.0);
    let packets = encode_all(&config(CODEC_ID_CLASSIC, 44_100), &pcm);
    let mut all_bytes: Vec<u8> = packets.concat();
    // Shift the byte alignment by one byte after offset 100.
    if all_bytes.len() > 200 {
        all_bytes.insert(100, 0xAA);
    }
    let mut dec = AptxDecoder::new(Variant::Classic, 44_100);
    dec.send_packet(&all_bytes, Some(0));
    assert!(
        dec.parity_errors() > 0,
        "byte-shifted stream produced no parity errors"
    );
}

#[test]
fn encoder_config_checks_rate_channels_format_then_codec_id() {
    assert_eq!(
        encoder_config(Some(22_050), Some(2), Some(true), "aptx"),
        Err(ConfigError::UnsupportedSampleRate(22_050))
    );
    assert_eq!(
        encoder_config(Some(44_100), Some(1), Some(true), "aptx"),
        Err(ConfigError::UnsupportedChannels(1))
    );
    assert_eq!(
        encoder_config(Some(44_100), Some(2), Some(false), "aptx"),
        Err(ConfigError::UnsupportedSampleFormat)
    );
    assert_eq!(
        encoder_config(Some(44_100), Some(2), Some(true), "sbc"),
        Err(ConfigError::UnknownCodecId)
    );
    // The sample rate is checked first.
    assert_eq!(
        encoder_config(Some(1), Some(6), Some(false), "sbc"),
        Err(ConfigError::UnsupportedSampleRate(1))
    );
}

#[test]
fn encoder_config_defaults_and_bit_rates() {
    let c = encoder_config(None, None, None, "aptx").unwrap();
    assert_eq!(c.variant, Variant::Classic);
    assert_eq!(c.sample_rate, 44_100);
    assert_eq!(c.bit_rate, 352_800);
    let h = encoder_config(Some(48_000), None, None, "aptx_hd").unwrap();
    assert_eq!(h.variant, Variant::Hd);
    assert_eq!(h.bit_rate, 576_000);
}

#[test]
fn encoder_packets_carry_pts_and_duration() {
    let cfg = config(CODEC_ID_CLASSIC, 44_100);
    let mut enc = AptxEncoder::new(cfg.sample_rate, cfg.variant);
    // 5 stereo frames: one block now, one PCM frame carried.
    let pcm = sine_stereo(5, 1000.0, 44_100, 4000.0);
    enc.send_frame(&le_bytes(&pcm), Some(100)).unwrap();
    let p = enc.receive_packet().unwrap();
    assert_eq!(p.data.len(), 4);
    assert_eq!(p.pts, Some(100));
    assert_eq!(p.duration, 4);
    assert!(enc.receive_packet().is_none());
    // A frame without a timestamp continues from the running one.
    enc.send_frame(&le_bytes(&sine_stereo(3, 1000.0, 44_100, 4000.0)), None).unwrap();
    let q = enc.receive_packet().unwrap();
    assert_eq!(q.pts, Some(104));
    assert_eq!(q.data.len(), 4);
    // Nothing is carried now, so a flush queues nothing.
    enc.flush();
    assert!(enc.receive_packet().is_none());
}

#[test]
fn encoder_rejects_odd_byte_count() {
    let mut enc = AptxEncoder::new(44_100, Variant::Classic);
    assert!(enc.send_frame(&[1, 2, 3], Some(0)).is_err());
    assert!(enc.receive_packet().is_none());
}

#[test]
fn decoder_reports_need_more_then_eof() {
    let mut dec = AptxDecoder::new(Variant::Hd, 48_000);
    assert!(matches!(dec.receive_frame(), Err(ReceiveStatus::NeedMore)));
    // Five bytes are less than one HD block: carried, no frame.
    dec.send_packet(&[0, 0, 0, 0, 0], Some(0));
    assert!(matches!(dec.receive_frame(), Err(ReceiveStatus::NeedMore)));
    // One more byte completes the block: 4 PCM frames = 16 bytes.
    dec.send_packet(&[0], None);
    let f = dec.receive_frame().unwrap();
    assert_eq!(f.samples, 4);
    assert_eq!(f.data.len(), 16);
    assert_eq!(f.pts, Some(0));
    dec.flush();
    assert!(matches!(dec.receive_frame(), Err(ReceiveStatus::Eof)));
}

#[test]
fn fresh_encoder_and_decoder_stay_in_lock_step() {
    // Decoding what the encoder produced never raises a parity error,
    // whatever the signal, for both variants.
    for (variant, rate) in [(Variant::Classic, 32_000u32), (Variant::Hd, 16_000u32)] {
        let mut enc = AptxEncoder::new(rate, variant);
        let mut dec = AptxDecoder::new(variant, rate);
        let mut pcm = Vec::new();
        let mut x: u32 = 12345;
        for _ in 0..4000 {
            x = x.wrapping_mul(1_103_515_245).wrapping_add(12_345);
            pcm.push((x >> 16) as i16);
        }
        enc.send_frame(&le_bytes(&pcm), Some(0)).unwrap();
        while let Some(p) = enc.receive_packet() {
            dec.send_packet(&p.data, p.pts);
        }
        assert_eq!(dec.parity_errors(), 0);
    }
}

#[test]
fn decoder_reset_clears_state() {
    let cfg = config(CODEC_ID_CLASSIC, 44_100);
    let pcm = sine_stereo(64, 1000.0, 44_100, 8000.0);
    let packets = encode_all(&cfg, &pcm);
    let mut shifted = packets.concat();
    shifted.insert(3, 0x55);
    let mut dec = AptxDecoder::new(Variant::Classic, 44_100);
    dec.send_packet(&shifted, Some(0));
    dec.reset();
    assert_eq!(dec.parity_errors(), 0);
    assert!(matches!(dec.receive_frame(), Err(ReceiveStatus::NeedMore)));
    assert_eq!(dec.variant(), Variant::Classic);
    assert_eq!(dec.sample_rate(), 44_100);
}

#[test]
fn encoding_is_independent_of_frame_boundaries() {
    let pcm = sine_stereo(203, 700.0, 44_100, 9000.0);
    let whole = encode_all(&config(CODEC_ID_CLASSIC, 44_100), &pcm).concat();
    let mut enc = AptxEncoder::new(44_100, Variant::Classic);
    // Frames of 3, 10 and the rest of the samples: blocks straddle frames.
    enc.send_frame(&le_bytes(&pcm[..3 * 2]), Some(0)).unwrap();
    enc.send_frame(&le_bytes(&pcm[3 * 2..13 * 2]), None).unwrap();
    enc.send_frame(&le_bytes(&pcm[13 * 2..]), None).unwrap();
    enc.flush();
    let mut split = Vec::new();
    while let Some(p) = enc.receive_packet() {
        split.extend_from_slice(&p.data);
    }
    assert_eq!(split, whole);
}

#[test]
fn decoding_is_independent_of_packet_boundaries() {
    let pcm = sine_stereo(400, 700.0, 48_000, 9000.0);
    let bytes = encode_all(&config(CODEC_ID_HD, 48_000), &pcm).concat();
    let mut one = AptxDecoder::new(Variant::Hd, 48_000);
    one.send_packet(&bytes, Some(0));
    let whole = one.receive_frame().unwrap().data;
    let mut dec = AptxDecoder::new(Variant::Hd, 48_000);
    let mut split = Vec::new();
    // Packets of 5, 7 and 11 bytes: blocks straddle packets.
    let mut pos = 0;
    let sizes = [5usize, 7, 11];
    let mut k = 0;
    while pos < bytes.len() {
        let end = (pos + sizes[k % 3]).min(bytes.len());
        dec.send_packet(&bytes[pos..end], None);
        while let Ok(f) = dec.receive_frame() {
            split.extend_from_slice(&f.data);
        }
        pos = end;
        k += 1;
    }
    assert_eq!(split, whole);
    assert_eq!(dec.parity_errors(), one.parity_errors());
}

#[test]
fn frame_then_flush_gives_one_block_per_started_group_of_four_frames() {
    // 17 stereo frames: 4 whole blocks and one padded block.
    let pcm = sine_stereo(17, 1000.0, 44_100, 4000.0);
    let total: usize = encode_all(&config(CODEC_ID_CLASSIC, 44_100), &pcm)
        .iter()
        .map(|p| p.len())
        .sum();
    assert_eq!(total, 5 * 4);
    let mut dec = AptxDecoder::new(Variant::Classic, 44_100);
    let bytes = encode_all(&config(CODEC_ID_CLASSIC, 44_100), &pcm).concat();
    dec.send_packet(&bytes, Some(0));
    assert_eq!(dec.parity_errors(), 0);
    assert_eq!(dec.receive_frame().unwrap().samples, 20);
}
