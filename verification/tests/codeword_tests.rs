use oxideav_aptx::codeword::{block_parity, pack_block, pack_channel, unpack_block, unpack_channel};
use oxideav_aptx::tables::Variant;

#[test]
fn classic_pack_unpack_roundtrip() {
    // LF = ±63 max, MLF = ±7, MHF = ±1, HF = ±3: full-range signed values.
    let cw = [-63, 7, -1, 3];
    let packed = pack_channel(Variant::Classic, cw);
    let back = unpack_channel(Variant::Classic, packed);
    assert_eq!(back, cw);
}

#[test]
fn hd_pack_unpack_roundtrip() {
    let cw = [-255, 31, -7, 15];
    let packed = pack_channel(Variant::Hd, cw);
    let back = unpack_channel(Variant::Hd, packed);
    assert_eq!(back, cw);
}

#[test]
fn classic_block_layout_is_big_endian() {
    let bytes = pack_block(Variant::Classic, 0x1234, 0x5678);
    assert_eq!(bytes, vec![0x12, 0x34, 0x56, 0x78]);
    let (l, r) = unpack_block(Variant::Classic, &bytes).unwrap();
    assert_eq!(l, 0x1234);
    assert_eq!(r, 0x5678);
}

#[test]
fn hd_block_layout_is_big_endian() {
    let bytes = pack_block(Variant::Hd, 0x123456, 0x789ABC);
    assert_eq!(bytes, vec![0x12, 0x34, 0x56, 0x78, 0x9A, 0xBC]);
    let (l, r) = unpack_block(Variant::Hd, &bytes).unwrap();
    assert_eq!(l, 0x123456);
    assert_eq!(r, 0x789ABC);
}

#[test]
fn hf_at_msb_end() {
    // HF = max, the others 0: HF is 3 bits at offset 7 + 4 + 2 = 13.
    let cw = [0, 0, 0, 3];
    let packed = pack_channel(Variant::Classic, cw);
    assert_eq!(packed >> 13, 3);
}

#[test]
fn classic_fields_sit_at_their_offsets() {
    // LF = -1 fills bits 0..7, MLF = 1 at bit 7, MHF = -1 fills bits 11..13,
    // HF = -4 = 0b100 at bits 13..16.
    let packed = pack_channel(Variant::Classic, [-1, 1, -1, -4]);
    assert_eq!(packed, 0x7F | (1 << 7) | (0b11 << 11) | (0b100 << 13));
    assert_eq!(unpack_channel(Variant::Classic, packed), [-1, 1, -1, -4]);
}

#[test]
fn unpack_sign_extends_each_field() {
    // All 16 bits set: every classic field is -1.
    assert_eq!(unpack_channel(Variant::Classic, 0xFFFF), [-1, -1, -1, -1]);
    // All 24 bits set: every HD field is -1.
    assert_eq!(unpack_channel(Variant::Hd, 0xFF_FFFF), [-1, -1, -1, -1]);
    // Only the top bit of the classic LF field: -64.
    assert_eq!(unpack_channel(Variant::Classic, 0x40), [-64, 0, 0, 0]);
}

#[test]
fn unpack_block_rejects_short_input() {
    assert_eq!(unpack_block(Variant::Classic, &[1, 2, 3]), None);
    assert_eq!(unpack_block(Variant::Hd, &[1, 2, 3, 4, 5]), None);
    // Extra bytes past the block are ignored.
    assert_eq!(unpack_block(Variant::Classic, &[0, 1, 0, 2, 9]), Some((1, 2)));
}

#[test]
fn block_parity_xors_low_bits_and_dither_parities() {
    let zero = [[0, 0, 0, 0], [0, 0, 0, 0]];
    assert_eq!(block_parity(&zero, 0, 0), 0);
    assert_eq!(block_parity(&zero, 1, 0), 1);
    assert_eq!(block_parity(&zero, 1, 1), 0);
    // Odd codewords contribute a 1 each; negative odd ones too.
    let cws = [[1, 0, 0, 0], [0, 0, 0, -3]];
    assert_eq!(block_parity(&cws, 0, 0), 0);
    let cws = [[1, 2, 3, 4], [0, 0, 0, 0]];
    assert_eq!(block_parity(&cws, 0, 0), 0);
    let cws = [[1, 2, 3, 5], [0, 0, 0, 0]];
    assert_eq!(block_parity(&cws, 0, 0), 1);
}

#[test]
fn pack_channel_is_the_or_of_shifted_band_bits() {
    assert_eq!(pack_channel(Variant::Classic, [-63, 7, -1, 3]), 0x7BC1);
    assert_eq!(pack_channel(Variant::Hd, [-255, 31, -7, 15]), 0x7C_BF01);
}

#[test]
fn unpack_channel_ignores_bits_above_the_channel_width() {
    assert_eq!(unpack_channel(Variant::Classic, 0xABCD_7BC1), [-63, 7, -1, 3]);
    assert_eq!(unpack_channel(Variant::Hd, 0xFF7C_BF01), [-255, 31, -7, 15]);
}
