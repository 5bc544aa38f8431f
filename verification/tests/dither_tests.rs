use oxideav_aptx::dither::DitherGen;

#[test]
fn deterministic_when_history_matches() {
    let mut a = DitherGen::new();
    let mut b = DitherGen::new();
    a.ingest(5, 1, 0);
    b.ingest(5, 1, 0);
    let (va, pa) = a.next_block();
    let (vb, pb) = b.next_block();
    assert_eq!(va, vb);
    assert_eq!(pa, pb);
}

#[test]
fn distinct_history_yields_distinct_dither() {
    let mut a = DitherGen::new();
    let mut b = DitherGen::new();
    // Several blocks of distinct codewords, so that the history register
    // has bits in its upper half.
    for _ in 0..10 {
        a.ingest(0xF, 0xF, 0xF);
        b.ingest(0, 0, 0);
    }
    let (va, _) = a.next_block();
    let (vb, _) = b.next_block();
    assert_ne!(va, vb);
}

#[test]
fn ingest_packs_correct_bits_per_spec() {
    // LF = 0b11, MLF = 0b10, MHF = 0b1: bit0 = LF[0] = 1, bit1 = LF[1] = 1,
    // bit2 = MLF[1] = 1, bit3 = MHF[0] = 1 → 0xF.
    let mut g = DitherGen::new();
    g.ingest(0b11, 0b10, 0b1);
    assert_eq!(g.history(), 0xF);
}

#[test]
fn ingest_uses_twos_complement_bits_and_shifts_by_four() {
    let mut g = DitherGen::new();
    // -1 = ...1111, -2 = ...1110: every selected bit is set.
    g.ingest(-1, -2, -1);
    assert_eq!(g.history(), 0xF);
    g.ingest(0, 0, 1);
    assert_eq!(g.history(), 0xF8);
    // The top nibble is shifted out.
    for _ in 0..7 {
        g.ingest(0, 0, 0);
    }
    assert_eq!(g.history(), 0x8000_0000);
    g.ingest(0, 0, 0);
    assert_eq!(g.history(), 0);
}

#[test]
fn silent_history_gives_zero_dither() {
    let mut g = DitherGen::new();
    let (d, p) = g.next_block();
    assert_eq!(d, [0, 0, 0, 0]);
    assert_eq!(p, 0);
    assert_eq!(g.history(), 0);
}

#[test]
fn lfsr_steps_four_times_per_block() {
    // From history 1: 1 → 3 → 6 → 13 → 27 (feedback = bits 31 ^ 21 ^ 1 ^ 0).
    let mut g = DitherGen::new();
    g.ingest(1, 0, 0);
    let (d, p) = g.next_block();
    assert_eq!(d, [0, 0, 0, 0]);
    assert_eq!(p, 1);
    assert_eq!(g.history(), 27);
    assert_eq!(g.parity(), 1);
}

#[test]
fn dither_is_upper_half_sign_extended() {
    let mut g = DitherGen::new();
    g.ingest(0, 0, 1); // 0x8
    for _ in 0..7 {
        g.ingest(0, 0, 0);
    }
    assert_eq!(g.history(), 0x8000_0000);
    let (d, _) = g.next_block();
    // 0x8000_0000 → step: bit = 1, state = 0x0000_0001.
    assert_eq!(d[0], 0);
    let mut h = DitherGen::new();
    h.ingest(-1, -2, -1);
    for _ in 0..7 {
        h.ingest(-1, -2, -1);
    }
    assert_eq!(h.history(), 0xFFFF_FFFF);
    let (dh, ph) = h.next_block();
    // 0xFFFF_FFFF: feedback 1^1^1^1 = 0 → 0xFFFF_FFFE → upper half = -1.
    assert_eq!(dh[0], -1);
    assert_eq!(ph & 1, ph);
}

#[test]
fn default_generator_is_fresh() {
    let g = DitherGen::default();
    assert_eq!(g.history(), 0);
    assert_eq!(g.parity(), 0);
}
