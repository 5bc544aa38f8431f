use oxideav_aptx::tables::{
    make_dither_factors, make_factor_select_offsets, make_interval_table, Subband, SubbandTables,
    Variant, QUANTIZATION_FACTORS,
};

#[test]
fn classic_table_sizes_match_trace_doc() {
    // LF=65, MLF=9, MHF=3, HF=5.
    let expected: [(Subband, usize); 4] = [
        (Subband::Lf, 65),
        (Subband::Mlf, 9),
        (Subband::Mhf, 3),
        (Subband::Hf, 5),
    ];
    for (sb, n) in expected {
        let t = SubbandTables::new(Variant::Classic, sb);
        assert_eq!(t.intervals.len(), n, "{sb:?} intervals");
        assert_eq!(t.dither_factors.len(), n, "{sb:?} dither");
        assert_eq!(t.factor_select_offsets.len(), n, "{sb:?} fs_offsets");
    }
}

#[test]
fn hd_table_sizes_match_trace_doc() {
    // LF=257, MLF=33, MHF=9, HF=17.
    let expected: [(Subband, usize); 4] = [
        (Subband::Lf, 257),
        (Subband::Mlf, 33),
        (Subband::Mhf, 9),
        (Subband::Hf, 17),
    ];
    for (sb, n) in expected {
        let t = SubbandTables::new(Variant::Hd, sb);
        assert_eq!(t.intervals.len(), n, "{sb:?} intervals");
    }
}

#[test]
fn intervals_are_monotonic() {
    for v in [Variant::Classic, Variant::Hd] {
        for sb in [Subband::Lf, Subband::Mlf, Subband::Mhf, Subband::Hf] {
            let t = SubbandTables::new(v, sb);
            for w in t.intervals.windows(2) {
                assert!(w[0] <= w[1], "intervals not monotonic in {v:?}/{sb:?}");
            }
        }
    }
}

#[test]
fn variant_block_sizes() {
    assert_eq!(Variant::Classic.block_bytes(), 4);
    assert_eq!(Variant::Hd.block_bytes(), 6);
    assert_eq!(Variant::Classic.bits_per_channel(), 16);
    assert_eq!(Variant::Hd.bits_per_channel(), 24);
}

#[test]
fn quantization_factors_are_monotonic_increasing() {
    for w in QUANTIZATION_FACTORS.windows(2) {
        assert!(w[0] <= w[1]);
    }
}

#[test]
fn table_builders_give_exact_entries() {
    assert_eq!(make_interval_table(3), vec![0, 1, 4, 9, 16]);
    assert_eq!(make_dither_factors(3), vec![0, -3, 6, -9, 12]);
    // len 5, quarter 1: ramp i - 1.
    assert_eq!(make_factor_select_offsets(3), vec![-2, -1, 0, 1, 2]);
    assert_eq!(make_interval_table(1), vec![0, 1]);
}

#[test]
fn subband_layout_and_indices() {
    assert_eq!(Subband::from_index(0), Subband::Lf);
    assert_eq!(Subband::from_index(1), Subband::Mlf);
    assert_eq!(Subband::from_index(2), Subband::Mhf);
    assert_eq!(Subband::from_index(3), Subband::Hf);
    assert_eq!(Subband::from_index(17), Subband::Hf);
    let classic: usize = [Subband::Lf, Subband::Mlf, Subband::Mhf, Subband::Hf]
        .iter()
        .map(|s| s.bits(Variant::Classic))
        .sum();
    let hd: usize = [Subband::Lf, Subband::Mlf, Subband::Mhf, Subband::Hf]
        .iter()
        .map(|s| s.bits(Variant::Hd))
        .sum();
    assert_eq!(classic, 16);
    assert_eq!(hd, 24);
    assert_eq!(Subband::Lf.prediction_order(), 24);
    assert_eq!(Subband::Mhf.prediction_order(), 6);
    assert_eq!(Subband::Hf.factor_max(), 255);
    assert_eq!(QUANTIZATION_FACTORS[0], 2048);
    assert_eq!(QUANTIZATION_FACTORS[4], 4096);
}
