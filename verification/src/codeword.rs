//! Per-channel codeword packing and the stereo block wire format.
//!
//! A channel codeword holds the four subband codewords, LF in the low bits,
//! then MLF, MHF and HF (classic: 7 + 4 + 2 + 3 = 16 bits; HD: 9 + 6 + 4 +
//! 5 = 24 bits), each as the low bits of its two's complement. A stereo
//! block is the left then the right channel codeword, big-endian (4 bytes
//! classic, 6 bytes HD).

use vstd::prelude::*;
use vstd::arithmetic::power2::{pow2, lemma2_to64, lemma_pow2_adds, lemma_pow2_pos};
use vstd::arithmetic::div_mod::lemma_fundamental_div_mod_converse;
use vstd::arithmetic::mul::lemma_mul_inequality;
use vstd::bits::{lemma_u32_shl_is_mul, lemma_u32_shr_is_div};
use crate::tables::{Subband, Variant, subband_at};

verus! {

/// Width of subband `i`'s codeword.
pub open spec fn band_bits(variant: Variant, i: int) -> nat {
    subband_at(i).spec_bits(variant) as nat
}

/// Bit offset of subband `i` inside the channel codeword.
pub open spec fn band_offset(variant: Variant, i: int) -> nat
    decreases i,
{
    if i <= 0 {
        0
    } else {
        band_offset(variant, i - 1) + band_bits(variant, i - 1)
    }
}

/// The low `b` bits of the two's complement of `c`.
pub open spec fn low_field(c: i32, b: nat) -> int {
    (c as u32) as int % (pow2(b) as int)
}

/// The `b`-bit field of `raw` at bit `off`, read as a two's-complement value.
pub open spec fn signed_field(raw: int, off: nat, b: nat) -> int {
    let f = (raw / (pow2(off) as int)) % (pow2(b) as int);
    if f >= pow2((b - 1) as nat) {
        f - pow2(b)
    } else {
        f
    }
}

/// `c` is representable as a signed `b`-bit value.
pub open spec fn fits_signed(c: int, b: nat) -> bool {
    -(pow2((b - 1) as nat) as int) <= c < pow2((b - 1) as nat)
}

/// `sum_{i < k} low_field(cw[i], bits_i) * 2^offset_i`.
pub open spec fn packed_prefix(variant: Variant, cw: [i32; 4], k: int) -> int
    decreases k,
{
    if k <= 0 {
        0
    } else {
        packed_prefix(variant, cw, k - 1) + low_field(cw[k - 1], band_bits(variant, k - 1)) * (pow2(
            band_offset(variant, k - 1),
        ) as int)
    }
}

/// The channel codeword of four subband codewords.
pub open spec fn pack_channel_spec(variant: Variant, cw: [i32; 4]) -> u32 {
    packed_prefix(variant, cw, 4) as u32
}

/// The four subband codewords of a channel codeword.
pub open spec fn unpack_channel_spec(variant: Variant, raw: u32) -> [i32; 4] {
    [
        signed_field(raw as int, band_offset(variant, 0), band_bits(variant, 0)) as i32,
        signed_field(raw as int, band_offset(variant, 1), band_bits(variant, 1)) as i32,
        signed_field(raw as int, band_offset(variant, 2), band_bits(variant, 2)) as i32,
        signed_field(raw as int, band_offset(variant, 3), band_bits(variant, 3)) as i32,
    ]
}

/// Every codeword fits the signed width of its subband.
pub open spec fn codewords_fit(variant: Variant, cw: [i32; 4]) -> bool {
    forall|i: int| 0 <= i < 4 ==> fits_signed(#[trigger] cw[i] as int, band_bits(variant, i))
}

proof fn lemma_layout(variant: Variant)
    ensures
        band_offset(variant, 0) == 0,
        band_offset(variant, 4) == variant.spec_bits_per_channel(),
        variant == Variant::Classic ==> band_bits(variant, 0) == 7 && band_bits(variant, 1) == 4
            && band_bits(variant, 2) == 2 && band_bits(variant, 3) == 3 && band_offset(variant, 1)
            == 7 && band_offset(variant, 2) == 11 && band_offset(variant, 3) == 13,
        variant == Variant::Hd ==> band_bits(variant, 0) == 9 && band_bits(variant, 1) == 6
            && band_bits(variant, 2) == 4 && band_bits(variant, 3) == 5 && band_offset(variant, 1)
            == 9 && band_offset(variant, 2) == 15 && band_offset(variant, 3) == 19,
{
    reveal_with_fuel(band_offset, 5);
}

proof fn lemma_mask_is_mod(v: u32, b: u32)
    requires
        1 <= b <= 31,
    ensures
        (1u32 << b) as int == pow2(b as nat),
        (1u32 << b) >= 1,
        v & (((1u32 << b) - 1) as u32) == v % (1u32 << b),
{
    lemma_pow2_pos(b as nat);
    vstd::bits::lemma_u32_pow2_no_overflow(b as nat);
    lemma_u32_shl_is_mul(1, b);
    vstd::bits::lemma_u32_low_bits_mask_is_mod(v, b as nat);
}

proof fn lemma_or_is_add(acc: u32, v: u32, s: u32, b: u32)
    requires
        1 <= b <= 9,
        s + b <= 24,
        (acc as int) < pow2(s as nat),
        (v as int) < pow2(b as nat),
    ensures
        (acc | (v << s)) as int == acc as int + v as int * pow2(s as nat),
        (acc as int + v as int * pow2(s as nat)) < pow2((s + b) as nat),
{
    vstd::bits::lemma_u32_pow2_no_overflow(s as nat);
    vstd::bits::lemma_u32_pow2_no_overflow(b as nat);
    lemma_u32_shl_is_mul(1, s);
    lemma_u32_shl_is_mul(1, b);
    lemma_pow2_adds(s as nat, b as nat);
    vstd::bits::lemma_u32_pow2_no_overflow((s + b) as nat);
    lemma_pow2_pos(s as nat);
    let ps = pow2(s as nat) as int;
    let pb = pow2(b as nat) as int;
    assert(acc as int + v as int * ps < pb * ps) by (nonlinear_arith)
        requires
            0 <= acc < ps,
            0 <= v < pb,
            ps > 0,
    ;
    assert(v as int * ps <= (pb - 1) * ps) by (nonlinear_arith)
        requires
            0 <= v < pb,
            ps > 0,
    ;
    lemma_u32_shl_is_mul(v, s);
    assert((acc | (v << s)) == acc + (v << s)) by (bit_vector)
        requires
            acc < (1u32 << s),
            v < (1u32 << b),
            s + b <= 24,
            1 <= b,
    ;
}

/// Mask the low `bits` of `v` and sign-extend if the top one of them is set.
fn sign_extend(v: u32, bits: usize) -> (r: i32)
    requires
        1 <= bits <= 31,
    ensures
        r as int == signed_field(v as int, 0, bits as nat),
{
    let b = bits as u32;
    proof {
        lemma_mask_is_mod(v, b);
        lemma2_to64();
    }
    let mask = (1u32 << b) - 1;
    let masked = v & mask;
    let bm = b - 1;
    let sign_bit = 1u32 << bm;
    proof {
        assert(((masked & sign_bit) != 0) == (masked >= sign_bit)) by (bit_vector)
            requires
                masked < (1u32 << b),
                sign_bit == 1u32 << bm,
                bm == b - 1,
                1 <= b <= 31,
        ;
        assert(masked >= sign_bit ==> ((masked | !mask) as i32) as int == masked as int - (1u32
            << b) as int) by (bit_vector)
            requires
                masked < (1u32 << b),
                sign_bit == 1u32 << bm,
                bm == b - 1,
                mask == (1u32 << b) - 1,
                1 <= b <= 31,
        ;
        assert(masked < sign_bit ==> (masked as i32) as int == masked as int) by (bit_vector)
            requires
                sign_bit == 1u32 << bm,
                bm == b - 1,
                1 <= b <= 31,
        ;
        assert(v as int / (pow2(0) as int) == v as int);
        vstd::bits::lemma_u32_pow2_no_overflow(bm as nat);
        lemma_u32_shl_is_mul(1, bm);
        assert(sign_bit as int == pow2((bits - 1) as nat));
        assert(masked as int == (v as int / (pow2(0) as int)) % (pow2(bits as nat) as int));
    }
    if masked & sign_bit != 0 {
        (masked | !mask) as i32
    } else {
        masked as i32
    }
}

/// Pack four signed codewords (LF, MLF, MHF, HF) into one channel codeword
/// (16 bits classic, 24 bits HD).
pub fn pack_channel(variant: Variant, codewords: [i32; 4]) -> (raw: u32)
    ensures
        raw == pack_channel_spec(variant, codewords),
        (raw as int) < pow2(variant.spec_bits_per_channel() as nat),
{
    let bits = [
        Subband::Lf.bits(variant),
        Subband::Mlf.bits(variant),
        Subband::Mhf.bits(variant),
        Subband::Hf.bits(variant),
    ];
    proof {
        lemma_layout(variant);
        lemma2_to64();
    }
    let mut acc: u32 = 0;
    let mut shift: usize = 0;
    let mut i: usize = 0;
    while i < 4
        invariant
            i <= 4,
            forall|j: int| 0 <= j < 4 ==> bits[j] as nat == band_bits(variant, j),
            forall|j: int| 0 <= j < 4 ==> 2 <= #[trigger] bits[j] <= 9,
            shift as nat == band_offset(variant, i as int),
            acc as int == packed_prefix(variant, codewords, i as int),
            (acc as int) < pow2(shift as nat),
            band_offset(variant, 4) == variant.spec_bits_per_channel(),
            variant == Variant::Classic ==> band_bits(variant, 0) == 7 && band_bits(variant, 1)
                == 4 && band_bits(variant, 2) == 2 && band_bits(variant, 3) == 3 && band_offset(
                variant,
                1,
            ) == 7 && band_offset(variant, 2) == 11 && band_offset(variant, 3) == 13,
            variant == Variant::Hd ==> band_bits(variant, 0) == 9 && band_bits(variant, 1) == 6
                && band_bits(variant, 2) == 4 && band_bits(variant, 3) == 5 && band_offset(
                variant,
                1,
            ) == 9 && band_offset(variant, 2) == 15 && band_offset(variant, 3) == 19,
            variant.spec_bits_per_channel() <= 24,
        decreases 4 - i,
    {
        let b = bits[i] as u32;
        proof {
            lemma_mask_is_mod(codewords[i as int] as u32, b);
        }
        let mask = (1u32 << b) - 1;
        let v = (codewords[i] as u32) & mask;
        proof {
            lemma_or_is_add(acc, v, shift as u32, b);
        }
        acc = acc | (v << (shift as u32));
        shift = shift + bits[i];
        i = i + 1;
    }
    acc
}

/// Unpack a channel codeword into its four signed subband codewords
/// `[LF, MLF, MHF, HF]`.
pub fn unpack_channel(variant: Variant, raw: u32) -> (cw: [i32; 4])
    ensures
        cw == unpack_channel_spec(variant, raw),
{
    let bits = [
        Subband::Lf.bits(variant),
        Subband::Mlf.bits(variant),
        Subband::Mhf.bits(variant),
        Subband::Hf.bits(variant),
    ];
    proof {
        lemma_layout(variant);
    }
    let mut out = [0i32; 4];
    let mut shift: usize = 0;
    let mut i: usize = 0;
    while i < 4
        invariant
            i <= 4,
            forall|j: int| 0 <= j < 4 ==> bits[j] as nat == band_bits(variant, j),
            forall|j: int| 0 <= j < 4 ==> 2 <= #[trigger] bits[j] <= 9,
            shift as nat == band_offset(variant, i as int),
            shift <= 24,
            band_offset(variant, 4) <= 24,
            forall|j: int| 0 <= j < 4 ==> 2 <= #[trigger] band_bits(variant, j) <= 9,
            forall|j: int|
                0 <= j < i ==> out[j] as int == signed_field(
                    raw as int,
                    band_offset(variant, j),
                    band_bits(variant, j),
                ),
            forall|j: int| 0 <= j <= 4 ==> #[trigger] band_offset(variant, j) <= 24,
        decreases 4 - i,
    {
        proof {
            lemma_u32_shr_is_div(raw, shift as u32);
            let q = raw as int / (pow2(shift as nat) as int);
            assert(q / (pow2(0) as int) == q) by {
                lemma2_to64();
            }
        }
        let v = raw >> (shift as u32);
        out[i] = sign_extend(v, bits[i]);
        shift = shift + bits[i];
        i = i + 1;
        proof {
            assert(band_offset(variant, i as int) <= 24);
        }
    }
    proof {
        assert(out =~= unpack_channel_spec(variant, raw));
    }
    out
}

/// Extracting a field: for `x = lo + f * 2^off + hi * 2^(off + b)` with
/// `lo < 2^off` and `f < 2^b`, the `b`-bit field at `off` is `f`.
proof fn lemma_field_extract(lo: int, f: int, hi: int, off: nat, b: nat)
    requires
        0 <= lo < pow2(off),
        0 <= f < pow2(b),
        0 <= hi,
    ensures
        ((lo + f * pow2(off) + hi * pow2(off + b)) / (pow2(off) as int)) % (pow2(b) as int) == f,
{
    let p = pow2(off) as int;
    let q = pow2(b) as int;
    lemma_pow2_pos(off);
    lemma_pow2_pos(b);
    lemma_pow2_adds(off, b);
    let x = lo + f * p + hi * (p * q);
    assert(x == (f + hi * q) * p + lo) by (nonlinear_arith)
        requires
            x == lo + f * p + hi * (p * q),
    ;
    lemma_fundamental_div_mod_converse(x, p, f + hi * q, lo);
    lemma_fundamental_div_mod_converse(f + hi * q, q, hi, f);
}

/// The low field of a representable codeword reads back as the codeword.
proof fn lemma_low_field_signed(c: i32, b: nat)
    requires
        2 <= b <= 9,
        fits_signed(c as int, b),
    ensures
        0 <= low_field(c, b) < pow2(b),
        (if low_field(c, b) >= pow2((b - 1) as nat) {
            low_field(c, b) - pow2(b)
        } else {
            low_field(c, b)
        }) == c,
{
    lemma2_to64();
    lemma_pow2_pos(b);
    vstd::arithmetic::power2::lemma_pow2_unfold(b);
    lemma_pow2_adds(b, (32 - b) as nat);
    let q = pow2(b) as int;
    let r = pow2((32 - b) as nat) as int;
    assert(q * r == 0x100000000);
    if c >= 0 {
        assert((c as u32) as int == c);
        lemma_fundamental_div_mod_converse(c as int, q, 0, c as int);
    } else {
        assert((c as u32) as int == c + 0x100000000) by (bit_vector)
            requires
                c < 0,
        ;
        assert(c + 0x100000000 == (r - 1) * q + (c + q)) by (nonlinear_arith)
            requires
                q * r == 0x100000000,
        ;
        lemma_fundamental_div_mod_converse(c + 0x100000000, q, r - 1, c + q);
    }
}

/// Packing then unpacking a channel gives back the four codewords, when
/// each fits the signed width of its subband.
pub proof fn lemma_channel_roundtrip(variant: Variant, cw: [i32; 4])
    requires
        codewords_fit(variant, cw),
    ensures
        unpack_channel_spec(variant, pack_channel_spec(variant, cw)) == cw,
        (pack_channel_spec(variant, cw) as int) < pow2(variant.spec_bits_per_channel() as nat),
{
    lemma_layout(variant);
    lemma2_to64();
    reveal_with_fuel(packed_prefix, 5);
    let b0 = band_bits(variant, 0);
    let b1 = band_bits(variant, 1);
    let b2 = band_bits(variant, 2);
    let b3 = band_bits(variant, 3);
    let o1 = band_offset(variant, 1);
    let o2 = band_offset(variant, 2);
    let o3 = band_offset(variant, 3);
    assert(fits_signed(cw[0] as int, b0));
    assert(fits_signed(cw[1] as int, b1));
    assert(fits_signed(cw[2] as int, b2));
    assert(fits_signed(cw[3] as int, b3));
    lemma_low_field_signed(cw[0], b0);
    lemma_low_field_signed(cw[1], b1);
    lemma_low_field_signed(cw[2], b2);
    lemma_low_field_signed(cw[3], b3);
    let f0 = low_field(cw[0], b0);
    let f1 = low_field(cw[1], b1);
    let f2 = low_field(cw[2], b2);
    let f3 = low_field(cw[3], b3);
    let p = packed_prefix(variant, cw, 4);
    assert(p == f0 + f1 * pow2(o1) + f2 * pow2(o2) + f3 * pow2(o3));
    assert(0 <= p < 0x1000000) by {
        if variant == Variant::Classic {
            assert(0 <= p < 0x10000);
        } else {
            assert(0 <= p < 0x1000000);
        }
    }
    assert((p as u32) as int == p);
    assert(p < pow2(variant.spec_bits_per_channel() as nat)) by {
        if variant == Variant::Classic {
            assert(0 <= p < 0x10000);
        }
    }
    // Field 0.
    assert(p == 0 + f0 * pow2(0) + (f1 + f2 * pow2((o2 - o1) as nat) + f3 * pow2((o3 - o1) as nat)) * pow2(
        (0 + b0) as nat,
    )) by {
        lemma_pow2_adds(o1, (o2 - o1) as nat);
        lemma_pow2_adds(o1, (o3 - o1) as nat);
        assert(p == f0 + (f1 + f2 * pow2((o2 - o1) as nat) + f3 * pow2((o3 - o1) as nat)) * pow2(o1))
            by (nonlinear_arith)
            requires
                p == f0 + f1 * pow2(o1) + f2 * pow2(o2) + f3 * pow2(o3),
                pow2(o2) == pow2(o1) * pow2((o2 - o1) as nat),
                pow2(o3) == pow2(o1) * pow2((o3 - o1) as nat),
        ;
    }
    lemma_field_extract(0, f0, f1 + f2 * pow2((o2 - o1) as nat) + f3 * pow2((o3 - o1) as nat), 0, b0);
    // Field 1.
    assert(p == f0 + f1 * pow2(o1) + (f2 + f3 * pow2((o3 - o2) as nat)) * pow2((o1 + b1) as nat))
        by {
        lemma_pow2_adds(o2, (o3 - o2) as nat);
        assert(p == f0 + f1 * pow2(o1) + (f2 + f3 * pow2((o3 - o2) as nat)) * pow2(o2))
            by (nonlinear_arith)
            requires
                p == f0 + f1 * pow2(o1) + f2 * pow2(o2) + f3 * pow2(o3),
                pow2(o3) == pow2(o2) * pow2((o3 - o2) as nat),
        ;
    }
    lemma_field_extract(f0, f1, f2 + f3 * pow2((o3 - o2) as nat), o1, b1);
    // Field 2.
    assert(f0 + f1 * pow2(o1) < pow2(o2)) by {
        assert(f1 * pow2(o1) <= (pow2(b1) - 1) * pow2(o1)) by {
            lemma_mul_inequality(f1, pow2(b1) - 1, pow2(o1) as int);
        }
        lemma_pow2_adds(o1, b1);
        assert((pow2(b1) - 1) * pow2(o1) == pow2(b1) * pow2(o1) - pow2(o1)) by (nonlinear_arith);
    }
    lemma_field_extract(f0 + f1 * pow2(o1), f2, f3, o2, b2);
    // Field 3.
    assert(f0 + f1 * pow2(o1) + f2 * pow2(o2) < pow2(o3)) by {
        assert(f1 * pow2(o1) <= (pow2(b1) - 1) * pow2(o1)) by {
            lemma_mul_inequality(f1, pow2(b1) - 1, pow2(o1) as int);
        }
        assert(f2 * pow2(o2) <= (pow2(b2) - 1) * pow2(o2)) by {
            lemma_mul_inequality(f2, pow2(b2) - 1, pow2(o2) as int);
        }
        lemma_pow2_adds(o1, b1);
        lemma_pow2_adds(o2, b2);
        assert((pow2(b1) - 1) * pow2(o1) == pow2(b1) * pow2(o1) - pow2(o1)) by (nonlinear_arith);
        assert((pow2(b2) - 1) * pow2(o2) == pow2(b2) * pow2(o2) - pow2(o2)) by (nonlinear_arith);
    }
    lemma_field_extract(f0 + f1 * pow2(o1) + f2 * pow2(o2), f3, 0, o3, b3);
    assert(unpack_channel_spec(variant, pack_channel_spec(variant, cw)) =~= cw);
}

/// Offsets and widths of the four bands: they tile the channel codeword.
proof fn lemma_band_ranges(variant: Variant, i: int)
    requires
        0 <= i < 4,
    ensures
        2 <= band_bits(variant, i) <= 9,
        band_offset(variant, i) + band_bits(variant, i) <= variant.spec_bits_per_channel(),
        variant.spec_bits_per_channel() <= 24,
{
    lemma_layout(variant);
    reveal_with_fuel(band_offset, 5);
}

/// Every unpacked codeword fits its band's signed width, its low bits are
/// the band's bits of the channel codeword, and the bits of the channel
/// codeword at or above `bits_per_channel` have no effect.
pub proof fn lemma_unpack_channel_fields(variant: Variant, raw: u32, i: int)
    requires
        0 <= i < 4,
    ensures
        ({
            let r = unpack_channel_spec(variant, raw)[i];
            let b = band_bits(variant, i) as u32;
            let off = band_offset(variant, i) as u32;
            let mask = ((1u32 << b) - 1) as u32;
            let top = ((1u32 << (variant.spec_bits_per_channel() as u32)) - 1) as u32;
            &&& fits_signed(r as int, b as nat)
            &&& (r as u32) & mask == (raw >> off) & mask
            &&& unpack_channel_spec(variant, raw & top)[i] == r
        }),
{
    lemma_band_ranges(variant, i);
    lemma2_to64();
    let b = band_bits(variant, i) as u32;
    let off = band_offset(variant, i) as u32;
    let bpc = variant.spec_bits_per_channel() as u32;
    let mask = ((1u32 << b) - 1) as u32;
    let top = ((1u32 << bpc) - 1) as u32;
    let masked = raw & top;
    assert(((masked >> off) & mask) == ((raw >> off) & mask)) by (bit_vector)
        requires
            masked == raw & top,
            top == ((1u32 << bpc) - 1) as u32,
            mask == ((1u32 << b) - 1) as u32,
            off + b <= bpc,
            bpc <= 24,
            1 <= b,
    ;
    let f = (raw >> off) & mask;
    lemma_u32_shr_is_div(raw, off);
    lemma_u32_shr_is_div(masked, off);
    lemma_mask_is_mod(raw >> off, b);
    lemma_mask_is_mod(masked >> off, b);
    assert(f as int == (raw as int / (pow2(off as nat) as int)) % (pow2(b as nat) as int));
    assert(f as int == (masked as int / (pow2(off as nat) as int)) % (pow2(b as nat) as int));
    vstd::bits::lemma_u32_pow2_no_overflow((b - 1) as nat);
    lemma_u32_shl_is_mul(1, (b - 1) as u32);
    let half = (1u32 << ((b - 1) as u32));
    assert(half as int == pow2((b - 1) as nat));
    let r = unpack_channel_spec(variant, raw)[i];
    assert(r == signed_field(raw as int, off as nat, b as nat) as i32) by {
        reveal_with_fuel(band_offset, 5);
    }
    assert(unpack_channel_spec(variant, masked)[i] == signed_field(masked as int, off as nat, b as nat) as i32);
    assert(f < (1u32 << b)) by (bit_vector)
        requires
            f == (raw >> off) & mask,
            mask == ((1u32 << b) - 1) as u32,
            1 <= b <= 9,
    ;
    if f >= half {
        let ri = (f as int - pow2(b as nat)) as i32;
        assert(r == ri);
        assert(((f as i32 - (1u32 << b) as i32) as u32) & mask == f) by (bit_vector)
            requires
                f < (1u32 << b),
                f >= half,
                half == (1u32 << ((b - 1) as u32)),
                mask == ((1u32 << b) - 1) as u32,
                2 <= b <= 9,
        ;
        assert((f as i32 - (1u32 << b) as i32) as int == f as int - pow2(b as nat));
    } else {
        assert(r == f as i32);
        assert(((f as i32) as u32) & mask == f) by (bit_vector)
            requires
                f < (1u32 << b),
                mask == ((1u32 << b) - 1) as u32,
                2 <= b <= 9,
        ;
    }
}

/// The channel codeword is the OR of each band's low bits shifted to the
/// band's offset: LF, MLF, MHF, HF of 7, 4, 2, 3 bits (classic) or 9, 6,
/// 4, 5 bits (HD), from the least significant bit up.
pub proof fn lemma_pack_channel_bits(cw: [i32; 4])
    ensures
        pack_channel_spec(Variant::Classic, cw) == ((cw[0] as u32) & 0x7f) | (((cw[1] as u32)
            & 0xf) << 7u32) | (((cw[2] as u32) & 0x3) << 11u32) | (((cw[3] as u32) & 0x7)
            << 13u32),
        pack_channel_spec(Variant::Hd, cw) == ((cw[0] as u32) & 0x1ff) | (((cw[1] as u32) & 0x3f)
            << 9u32) | (((cw[2] as u32) & 0xf) << 15u32) | (((cw[3] as u32) & 0x1f) << 19u32),
{
    lemma2_to64();
    reveal_with_fuel(packed_prefix, 5);
    lemma_layout(Variant::Classic);
    lemma_layout(Variant::Hd);
    let c0 = cw[0] as u32;
    let c1 = cw[1] as u32;
    let c2 = cw[2] as u32;
    let c3 = cw[3] as u32;
    assert(low_field(cw[0], 7) == (c0 & 0x7f) && low_field(cw[1], 4) == (c1 & 0xf) && low_field(
        cw[2],
        2,
    ) == (c2 & 0x3) && low_field(cw[3], 3) == (c3 & 0x7)) by {
        assert(c0 & 0x7f == c0 % 128 && c1 & 0xf == c1 % 16 && c2 & 0x3 == c2 % 4 && c3 & 0x7
            == c3 % 8) by (bit_vector);
    }
    assert(low_field(cw[0], 9) == (c0 & 0x1ff) && low_field(cw[1], 6) == (c1 & 0x3f) && low_field(
        cw[2],
        4,
    ) == (c2 & 0xf) && low_field(cw[3], 5) == (c3 & 0x1f)) by {
        assert(c0 & 0x1ff == c0 % 512 && c1 & 0x3f == c1 % 64 && c2 & 0xf == c2 % 16 && c3 & 0x1f
            == c3 % 32) by (bit_vector);
    }
    assert(((c0 & 0x7f) + (c1 & 0xf) * 128 + (c2 & 0x3) * 2048 + (c3 & 0x7) * 8192) as u32 == (c0
        & 0x7f) | ((c1 & 0xf) << 7u32) | ((c2 & 0x3) << 11u32) | ((c3 & 0x7) << 13u32))
        by (bit_vector);
    assert(((c0 & 0x1ff) + (c1 & 0x3f) * 512 + (c2 & 0xf) * 32768 + (c3 & 0x1f) * 524288) as u32
        == (c0 & 0x1ff) | ((c1 & 0x3f) << 9u32) | ((c2 & 0xf) << 15u32) | ((c3 & 0x1f)
        << 19u32)) by (bit_vector);
}

// ---------------------------------------------------------------------------
// Block wire format
// ---------------------------------------------------------------------------

/// The big-endian bytes of the low 16 bits of `x`.
pub open spec fn be16(x: u32) -> Seq<u8> {
    seq![((x / 0x100) % 0x100) as u8, (x % 0x100) as u8]
}

/// The big-endian bytes of the low 24 bits of `x`.
pub open spec fn be24(x: u32) -> Seq<u8> {
    seq![((x / 0x10000) % 0x100) as u8, ((x / 0x100) % 0x100) as u8, (x % 0x100) as u8]
}

/// A stereo block: the left then the right channel codeword, big-endian.
pub open spec fn pack_block_spec(variant: Variant, left: u32, right: u32) -> Seq<u8> {
    match variant {
        Variant::Classic => be16(left) + be16(right),
        Variant::Hd => be24(left) + be24(right),
    }
}

/// The (left, right) codewords of the first block of `bytes`, if it holds
/// a whole block.
pub open spec fn unpack_block_spec(variant: Variant, bytes: Seq<u8>) -> Option<(u32, u32)> {
    if bytes.len() < variant.spec_block_bytes() {
        None
    } else {
        match variant {
            Variant::Classic => Some(
                (
                    (bytes[0] as int * 0x100 + bytes[1] as int) as u32,
                    (bytes[2] as int * 0x100 + bytes[3] as int) as u32,
                ),
            ),
            Variant::Hd => Some(
                (
                    (bytes[0] as int * 0x10000 + bytes[1] as int * 0x100 + bytes[2] as int) as u32,
                    (bytes[3] as int * 0x10000 + bytes[4] as int * 0x100 + bytes[5] as int) as u32,
                ),
            ),
        }
    }
}

/// Pack two channel codewords into a stereo block (4 bytes classic, 6 HD,
/// big-endian).
pub fn pack_block(variant: Variant, left: u32, right: u32) -> (out: Vec<u8>)
    ensures
        out@ == pack_block_spec(variant, left, right),
        out@.len() == variant.spec_block_bytes(),
{
    match variant {
        Variant::Classic => {
            let l = left as u16;
            let r = right as u16;
            proof {
                assert(((l >> 8u16) as u8) == ((left / 0x100) % 0x100) as u8 && (l as u8) == (left
                    % 0x100) as u8) by (bit_vector)
                    requires
                        l == left as u16,
                ;
                assert(((r >> 8u16) as u8) == ((right / 0x100) % 0x100) as u8 && (r as u8) == (right
                    % 0x100) as u8) by (bit_vector)
                    requires
                        r == right as u16,
                ;
            }
            let mut out: Vec<u8> = Vec::with_capacity(4);
            out.push((l >> 8u16) as u8);
            out.push(l as u8);
            out.push((r >> 8u16) as u8);
            out.push(r as u8);
            proof {
                assert(out@ =~= pack_block_spec(variant, left, right));
            }
            out
        },
        Variant::Hd => {
            proof {
                assert((((left >> 16u32) & 0xFF) as u8) == ((left / 0x10000) % 0x100) as u8
                    && (((left >> 8u32) & 0xFF) as u8) == ((left / 0x100) % 0x100) as u8 && ((left
                    & 0xFF) as u8) == (left % 0x100) as u8) by (bit_vector);
                assert((((right >> 16u32) & 0xFF) as u8) == ((right / 0x10000) % 0x100) as u8
                    && (((right >> 8u32) & 0xFF) as u8) == ((right / 0x100) % 0x100) as u8 && ((right
                    & 0xFF) as u8) == (right % 0x100) as u8) by (bit_vector);
            }
            let out = vec![
                ((left >> 16u32) & 0xFF) as u8,
                ((left >> 8u32) & 0xFF) as u8,
                (left & 0xFF) as u8,
                ((right >> 16u32) & 0xFF) as u8,
                ((right >> 8u32) & 0xFF) as u8,
                (right & 0xFF) as u8,
            ];
            proof {
                assert(out@ =~= pack_block_spec(variant, left, right));
            }
            out
        },
    }
}

/// Read one stereo block from the front of `bytes`: the (left, right)
/// channel codewords, or `None` when fewer bytes than a block remain.
pub fn unpack_block(variant: Variant, bytes: &[u8]) -> (r: Option<(u32, u32)>)
    ensures
        r == unpack_block_spec(variant, bytes@),
{
    match variant {
        Variant::Classic => {
            if bytes.len() < 4 {
                return None;
            }
            let l = ((bytes[0] as u32) << 8u32) | bytes[1] as u32;
            let r = ((bytes[2] as u32) << 8u32) | bytes[3] as u32;
            proof {
                let b0 = bytes@[0];
                let b1 = bytes@[1];
                let b2 = bytes@[2];
                let b3 = bytes@[3];
                assert((((b0 as u32) << 8u32) | b1 as u32) as int == b0 as int * 0x100 + b1 as int)
                    by (bit_vector);
                assert((((b2 as u32) << 8u32) | b3 as u32) as int == b2 as int * 0x100 + b3 as int)
                    by (bit_vector);
            }
            Some((l, r))
        },
        Variant::Hd => {
            if bytes.len() < 6 {
                return None;
            }
            let l = ((bytes[0] as u32) << 16u32) | ((bytes[1] as u32) << 8u32) | bytes[2] as u32;
            let r = ((bytes[3] as u32) << 16u32) | ((bytes[4] as u32) << 8u32) | bytes[5] as u32;
            proof {
                let b0 = bytes@[0];
                let b1 = bytes@[1];
                let b2 = bytes@[2];
                let b3 = bytes@[3];
                let b4 = bytes@[4];
                let b5 = bytes@[5];
                assert((((b0 as u32) << 16u32) | ((b1 as u32) << 8u32) | b2 as u32) as int == b0 as int
                    * 0x10000 + b1 as int * 0x100 + b2 as int) by (bit_vector);
                assert((((b3 as u32) << 16u32) | ((b4 as u32) << 8u32) | b5 as u32) as int == b3 as int
                    * 0x10000 + b4 as int * 0x100 + b5 as int) by (bit_vector);
            }
            Some((l, r))
        },
    }
}

/// Packing then unpacking a block gives back both channel codewords when
/// they fit the channel width (16 bits classic, 24 bits HD).
pub proof fn lemma_block_roundtrip(variant: Variant, left: u32, right: u32)
    requires
        (left as int) < pow2(variant.spec_bits_per_channel() as nat),
        (right as int) < pow2(variant.spec_bits_per_channel() as nat),
    ensures
        unpack_block_spec(variant, pack_block_spec(variant, left, right)) == Some((left, right)),
{
    lemma2_to64();
    let s = pack_block_spec(variant, left, right);
    match variant {
        Variant::Classic => {
            assert(((((left / 0x100) % 0x100) as u8) as int * 0x100 + ((left % 0x100) as u8) as int)
                as u32 == left) by (bit_vector)
                requires
                    left < 0x10000,
            ;
            assert(((((right / 0x100) % 0x100) as u8) as int * 0x100 + ((right % 0x100) as u8) as int)
                as u32 == right) by (bit_vector)
                requires
                    right < 0x10000,
            ;
        },
        Variant::Hd => {
            assert(((((left / 0x10000) % 0x100) as u8) as int * 0x10000 + (((left / 0x100) % 0x100) as u8) as int
                * 0x100 + ((left % 0x100) as u8) as int) as u32 == left) by (bit_vector)
                requires
                    left < 0x1000000,
            ;
            assert(((((right / 0x10000) % 0x100) as u8) as int * 0x10000 + (((right / 0x100) % 0x100) as u8) as int
                * 0x100 + ((right % 0x100) as u8) as int) as u32 == right) by (bit_vector)
                requires
                    right < 0x1000000,
            ;
        },
    }
}

// ---------------------------------------------------------------------------
// Parity sync
// ---------------------------------------------------------------------------

/// The codeword at flat position `k` (channel `k / 4`, subband `k % 4`).
pub open spec fn codeword_at(cws: [[i32; 4]; 2], k: int) -> i32 {
    cws[k / 4][k % 4]
}

/// `sum_{j < k} codeword_at(cws, j) mod 2`.
pub open spec fn low_bit_sum(cws: [[i32; 4]; 2], k: int) -> int
    decreases k,
{
    if k <= 0 {
        0
    } else {
        low_bit_sum(cws, k - 1) + codeword_at(cws, k - 1) % 2
    }
}

/// Parity of a block: the XOR of the low bits of all eight codewords and of
/// both channels' dither parity bits.
pub open spec fn block_parity_spec(cws: [[i32; 4]; 2], dpl: u8, dpr: u8) -> u8 {
    ((dpl % 2 + dpr % 2 + low_bit_sum(cws, 8)) % 2) as u8
}

/// The parity a block must have at position `sync_idx` of the 8-block
/// sync cycle: 1 for the last block of the cycle, 0 otherwise.
pub open spec fn parity_required(sync_idx: u8) -> u8 {
    if sync_idx == 7 {
        1
    } else {
        0
    }
}

/// XOR of all eight codeword low bits and both per-channel dither parities.
pub fn block_parity(codewords: &[[i32; 4]; 2], dpl: u8, dpr: u8) -> (p: u8)
    ensures
        p == block_parity_spec(*codewords, dpl, dpr),
        p <= 1,
{
    let mut p: u8 = dpl ^ dpr;
    proof {
        assert(((dpl ^ dpr) & 1u8) as int == (dpl as int % 2 + dpr as int % 2) % 2) by (bit_vector);
    }
    let mut k: usize = 0;
    while k < 8
        invariant
            k <= 8,
            (p & 1u8) as int == (dpl % 2 + dpr % 2 + low_bit_sum(*codewords, k as int)) % 2,
        decreases 8 - k,
    {
        let c = codewords[k / 4][k % 4];
        let x = (c & 1) as u8;
        proof {
            assert(x as int == c as int % 2 && x <= 1) by (bit_vector)
                requires
                    x == (c & 1i32) as u8,
            ;
            assert(((p ^ x) & 1u8) as int == ((p & 1u8) as int + x as int) % 2) by (bit_vector)
                requires
                    x <= 1,
            ;
        }
        p = p ^ x;
        k = k + 1;
    }
    proof {
        assert((p & 1u8) <= 1) by (bit_vector);
    }
    p & 1
}

/// Changing one codeword by one flips the block parity.
proof fn lemma_low_bit_sum_flip(cws: [[i32; 4]; 2], k: int, v: i32, n: int)
    requires
        0 <= k < 8,
        0 <= n <= 8,
        v == codeword_at(cws, k) + 1 || v == codeword_at(cws, k) - 1,
    ensures
        low_bit_sum(with_codeword(cws, k, v), n) == low_bit_sum(cws, n) + (if k < n {
            v % 2 - codeword_at(cws, k) % 2
        } else {
            0
        }),
    decreases n,
{
    if n > 0 {
        lemma_low_bit_sum_flip(cws, k, v, n - 1);
    }
}

/// `cws` with the codeword at flat position `k` replaced by `v`.
pub open spec fn with_codeword(cws: [[i32; 4]; 2], k: int, v: i32) -> [[i32; 4]; 2] {
    [
        [
            if k / 4 == 0 && k % 4 == 0 { v } else { cws[0][0] },
            if k / 4 == 0 && k % 4 == 1 { v } else { cws[0][1] },
            if k / 4 == 0 && k % 4 == 2 { v } else { cws[0][2] },
            if k / 4 == 0 && k % 4 == 3 { v } else { cws[0][3] },
        ],
        [
            if k / 4 == 1 && k % 4 == 0 { v } else { cws[1][0] },
            if k / 4 == 1 && k % 4 == 1 { v } else { cws[1][1] },
            if k / 4 == 1 && k % 4 == 2 { v } else { cws[1][2] },
            if k / 4 == 1 && k % 4 == 3 { v } else { cws[1][3] },
        ],
    ]
}

/// A block whose parity is wrong becomes right when one codeword moves by one.
pub proof fn lemma_parity_flip(cws: [[i32; 4]; 2], k: int, v: i32, dpl: u8, dpr: u8)
    requires
        0 <= k < 8,
        v == codeword_at(cws, k) + 1 || v == codeword_at(cws, k) - 1,
    ensures
        block_parity_spec(with_codeword(cws, k, v), dpl, dpr) != block_parity_spec(cws, dpl, dpr),
        block_parity_spec(with_codeword(cws, k, v), dpl, dpr) <= 1,
        block_parity_spec(cws, dpl, dpr) <= 1,
{
    lemma_low_bit_sum_flip(cws, k, v, 8);
}

} // verus!
