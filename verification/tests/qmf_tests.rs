use oxideav_aptx::qmf::{
    QmfAnalysis, QmfSynthesis, INNER_COEFFS_0, INNER_COEFFS_1, OUTER_COEFFS_0, OUTER_COEFFS_1,
};

#[test]
fn analysis_silence_stays_silent() {
    let mut a = QmfAnalysis::new();
    for _ in 0..16 {
        let sb = a.process([0; 4]);
        assert_eq!(sb, [0; 4]);
    }
}

#[test]
fn synthesis_silence_stays_silent() {
    let mut s = QmfSynthesis::new();
    for _ in 0..16 {
        let pcm = s.process([0; 4]);
        assert_eq!(pcm, [0; 4]);
    }
}

#[test]
fn outer_filters_are_mirror_pair() {
    for k in 0..16 {
        assert_eq!(
            OUTER_COEFFS_1[k],
            OUTER_COEFFS_0[15 - k],
            "outer mirror property fails at k={k}"
        );
    }
}

#[test]
fn inner_filters_are_mirror_pair() {
    for k in 0..16 {
        assert_eq!(
            INNER_COEFFS_1[k],
            INNER_COEFFS_0[15 - k],
            "inner mirror property fails at k={k}"
        );
    }
}

#[test]
fn outer_dc_sums_agree_between_mirrored_pair() {
    let s0: i64 = OUTER_COEFFS_0.iter().map(|&c| c as i64).sum();
    let s1: i64 = OUTER_COEFFS_1.iter().map(|&c| c as i64).sum();
    assert_eq!(s0, s1);
}

#[test]
fn inner_dc_sums_agree_between_mirrored_pair() {
    let s0: i64 = INNER_COEFFS_0.iter().map(|&c| c as i64).sum();
    let s1: i64 = INNER_COEFFS_1.iter().map(|&c| c as i64).sum();
    assert_eq!(s0, s1);
}

#[test]
fn outer_centre_tap_matches_spec() {
    assert_eq!(OUTER_COEFFS_0[7], 2_801_966);
}

#[test]
fn inner_centre_tap_matches_spec() {
    assert_eq!(INNER_COEFFS_0[7], 3_962_579);
}

#[test]
fn dc_sums_have_known_values() {
    let outer: i64 = OUTER_COEFFS_0.iter().map(|&c| c as i64).sum();
    let inner: i64 = INNER_COEFFS_0.iter().map(|&c| c as i64).sum();
    assert_eq!(outer, 2_965_693);
    assert_eq!(inner, 4_194_128);
}

#[test]
fn analysis_first_output_of_an_impulse() {
    // Impulse 2^23 on the first sample: after the two outer pushes the
    // history is [.., 2^23, 0]; tap 1 meets the impulse.
    // a = -413 * 2^23, b = 688 * 2^23; low = round((a+b) / 2^23) = 275,
    // high = round((a-b) / 2^23) = -1101 (outer). Those two then go through
    // the inner stages, whose first push leaves them at taps 1 (first) and
    // 0 (second).
    let mut a = QmfAnalysis::new();
    let out = a.process([1 << 23, 0, 0, 0]);
    // Outer: first pair gives (275, -1101); second pair (taps 3 and 2 of the impulse):
    // a = 43626 * 2^23, b = -10043 * 2^23 -> low = 33583, high = 53669.
    // Inner low on (275, 33583): a = 1033*33583 - 584*275, b = -1268*33583 + 973*275.
    let in_a: i64 = 1033 * 33583 - 584 * 275;
    let in_b: i64 = -1268 * 33583 + 973 * 275;
    let lf = ((in_a + in_b + (1 << 22)) >> 23) as i32;
    let mlf = ((in_a - in_b + (1 << 22)) >> 23) as i32;
    assert_eq!(out[0], lf);
    assert_eq!(out[1], mlf);
}

#[test]
fn analysis_synthesis_roundtrip_low_distortion() {
    let mut ana = QmfAnalysis::new();
    let mut syn = QmfSynthesis::new();
    let n_blocks = 500;
    let mut input = Vec::with_capacity(n_blocks * 4);
    for i in 0..n_blocks * 4 {
        let v = ((i as f64 * 2.0 * std::f64::consts::PI * 500.0 / 44100.0).sin()
            * 16_000.0
            * 256.0) as i32;
        input.push(v);
    }
    let mut output = Vec::with_capacity(input.len());
    for chunk in input.chunks_exact(4) {
        let block = [chunk[0], chunk[1], chunk[2], chunk[3]];
        let sb = ana.process(block);
        let pcm = syn.process(sb);
        output.extend_from_slice(&pcm);
    }
    let head = 200;
    let mut best_psnr = f64::NEG_INFINITY;
    for delay in 0..150 {
        if head + delay >= input.len() {
            break;
        }
        let n = input.len() - head - delay;
        let mut err = 0.0f64;
        let mut sig = 0.0f64;
        for i in 0..n {
            let x = input[head + i] as f64;
            let y = output[head + delay + i] as f64;
            err += (x - y).powi(2);
            sig += x * x;
        }
        let p = if err > 0.0 {
            10.0 * (sig / err).log10()
        } else {
            200.0
        };
        if p > best_psnr {
            best_psnr = p;
        }
    }
    assert!(
        best_psnr > 25.0,
        "QMF analysis-synthesis roundtrip too lossy: best PSNR {best_psnr:.2} dB"
    );
}
