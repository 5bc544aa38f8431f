use oxideav_aptx::subband::{compute_quantization_factor, SubbandState};
use oxideav_aptx::tables::{Subband, Variant};

#[test]
fn fresh_state_predicts_zero() {
    let s = SubbandState::new(Variant::Classic, Subband::Lf);
    assert_eq!(s.predict(), 0);
}

#[test]
fn quantize_zero_difference_is_zero() {
    let s = SubbandState::new(Variant::Classic, Subband::Lf);
    let (cw, _err) = s.quantize(0);
    assert_eq!(cw, 0);
}

#[test]
fn invert_quantize_negates_for_negative_codeword() {
    let s = SubbandState::new(Variant::Classic, Subband::Mlf);
    let pos = s.invert_quantize(3, 0);
    let neg = s.invert_quantize(-3, 0);
    assert_eq!(pos, -neg);
}

#[test]
fn factor_select_increments_under_persistent_signal() {
    let mut s = SubbandState::new(Variant::Classic, Subband::Lf);
    // A stream of large-magnitude codewords: the largest interval index has
    // a large positive offset, so factor_select climbs from 0.
    let cw = 60;
    for _ in 0..200 {
        let recon = s.invert_quantize(cw, 0);
        s.update_state(cw, recon, recon);
    }
    assert!(
        s.factor_select > 0,
        "factor_select did not adapt: {}",
        s.factor_select
    );
}

#[test]
fn classic_codeword_fits_in_band_bits() {
    for sb in [Subband::Lf, Subband::Mlf, Subband::Mhf, Subband::Hf] {
        let s = SubbandState::new(Variant::Classic, sb);
        let bits = sb.bits(Variant::Classic);
        let (cw, _) = s.quantize(i32::MAX / 2);
        let max = (1i32 << (bits - 1)) - 1;
        assert!(
            cw.abs() <= max,
            "{sb:?}: codeword {cw} exceeds {bits}-bit signed range ±{max}"
        );
    }
}

#[test]
fn factor_select_capped_at_factor_max() {
    let mut s = SubbandState::new(Variant::Classic, Subband::Lf);
    let cw = 60;
    for _ in 0..10_000 {
        let recon = s.invert_quantize(cw, 0);
        s.update_state(cw, recon, recon);
    }
    assert!(s.factor_select <= Subband::Lf.factor_max());
}

#[test]
fn subband_self_roundtrip_tracks_input() {
    let mut enc = SubbandState::new(Variant::Classic, Subband::Lf);
    let mut dec = SubbandState::new(Variant::Classic, Subband::Lf);
    let mut sum_sig = 0.0f64;
    let mut sum_err = 0.0f64;
    for n in 0..200 {
        let target = ((n as f64 * 0.05).sin() * 1_000_000.0) as i32;
        let pred = enc.predict();
        let diff = target - pred;
        let (cw, _err) = enc.quantize(diff);
        let recon_diff = enc.invert_quantize(cw, 0);
        let recon = pred + recon_diff;
        enc.update_state(cw, recon_diff, recon);
        let pred_d = dec.predict();
        let recon_diff_d = dec.invert_quantize(cw, 0);
        let recon_d = pred_d + recon_diff_d;
        dec.update_state(cw, recon_diff_d, recon_d);
        assert_eq!(recon, recon_d, "encoder/decoder desync at n={n}");
        if n >= 30 {
            let e = (target - recon_d) as f64;
            sum_err += e * e;
            sum_sig += (target as f64).powi(2);
        }
    }
    let psnr = 10.0 * (sum_sig / sum_err.max(1.0)).log10();
    assert!(
        psnr > 30.0,
        "subband ADPCM tracking PSNR too low: {psnr:.2} dB"
    );
}

#[test]
fn quantization_factor_at_zero_factor_select_is_known() {
    // factor_select = 0 → step 0 → QUANTIZATION_FACTORS[0] = 2048;
    // shift = 0x11FF >> 8 = 17; (2048 << 11) >> 17 = 32.
    let qf = compute_quantization_factor(0, 0x11FF);
    assert_eq!(qf, 32);
}

#[test]
fn quantization_factor_without_shift_is_ladder_entry_times_2048() {
    // factor_select = 255 under cap 255: step (255 & 0xFF) >> 3 = 31, shift 0.
    assert_eq!(compute_quantization_factor(255, 255), 440_872 * 2048);
    // factor_select = 8: step 1, shift 0.
    assert_eq!(compute_quantization_factor(8, 255), 2435 * 2048);
    // Negative factor_select clamps to 0.
    assert_eq!(compute_quantization_factor(-5, 255), 2048 * 2048);
}

#[test]
fn fresh_state_has_zero_factor_select_and_base_factor() {
    let s = SubbandState::new(Variant::Hd, Subband::Hf);
    assert_eq!(s.factor_select, 0);
    assert_eq!(s.quantization_factor(), 2048 * 2048);
    assert_eq!(s.d_weight.len(), 12);
    assert_eq!(s.reconstructed_differences.len(), 24);
}

#[test]
fn quantize_picks_largest_interval_below_scaled_difference() {
    // Fresh state: qf = 2048 * 2048 = 2^22. |diff| * 2^19 >= i² * 2^22
    // ⇔ |diff| >= 8 i². diff = 100 → largest i with 8 i² <= 100 is 3.
    let s = SubbandState::new(Variant::Classic, Subband::Lf);
    let (cw, err) = s.quantize(100);
    assert_eq!(cw, 3);
    assert_eq!(err, 100 * 524_288 - 9 * 4_194_304);
    let (cw_neg, _) = s.quantize(-100);
    assert_eq!(cw_neg, -3);
}

#[test]
fn invert_quantize_scales_interval_by_factor() {
    // (2^22 * 9) >> 19 = 72 for codeword 3 with no dither.
    let s = SubbandState::new(Variant::Classic, Subband::Lf);
    assert_eq!(s.invert_quantize(3, 0), 72);
    assert_eq!(s.invert_quantize(-3, 0), -72);
    assert_eq!(s.invert_quantize(0, 12345), 0);
}

#[test]
fn mhf_classic_codeword_saturates_at_one() {
    // Classic MHF has 2 bits: the codeword magnitude is capped at 1.
    let s = SubbandState::new(Variant::Classic, Subband::Mhf);
    let (cw, _) = s.quantize(1_000_000);
    assert_eq!(cw, 1);
    let (cw, _) = s.quantize(-1_000_000);
    assert_eq!(cw, -1);
}

#[test]
fn one_update_adds_the_codeword_offset_to_factor_select() {
    // The offsets ramp from -2 at magnitude 0: codeword 60 has offset 58,
    // and (32620 * 0 + 58 * 32768 + 16384) >> 15 = 58.
    let mut s = SubbandState::new(Variant::Classic, Subband::Lf);
    let recon = s.invert_quantize(60, 0);
    s.update_state(60, recon, recon);
    assert_eq!(s.factor_select, 58);
    // A zero codeword (offset -2) keeps a fresh factor_select at 0.
    let mut z = SubbandState::new(Variant::Classic, Subband::Lf);
    z.update_state(0, 0, 0);
    assert_eq!(z.factor_select, 0);
}

#[test]
fn quantizer_is_monotone_and_odd() {
    let s = SubbandState::new(Variant::Hd, Subband::Lf);
    let mut prev = i32::MIN;
    for d in (-3000..3000).step_by(7) {
        let (cw, err) = s.quantize(d);
        assert!(cw >= prev, "codeword fell at d={d}");
        prev = cw;
        let (ncw, nerr) = s.quantize(-d);
        assert_eq!(ncw, -cw);
        assert_eq!(nerr, err);
    }
}
