use oxideav_aptx::{Error, Result, CODEC_ID_CLASSIC, CODEC_ID_HD, CODEC_ID_STR, WAVE_FORMAT_TAG_APTX};

#[test]
fn codec_id_str_is_stable() {
    // The framework registry keys off this exact string.
    assert_eq!(CODEC_ID_STR, "aptx");
}

#[test]
fn wave_format_tag_matches_rfc_2361() {
    // RFC 2361 §A.24 — WAVE_FORMAT_APTX, registration number 0x0025.
    assert_eq!(WAVE_FORMAT_TAG_APTX, 0x0025);
}

#[test]
fn error_display_points_at_readme() {
    let s = Error::NotImplemented.message();
    assert!(
        s.contains("clean-room rebuild"),
        "Error::NotImplemented message should mention the clean-room rebuild status; got: {s}"
    );
    assert!(
        s.contains("README.md"),
        "Error::NotImplemented Display should point at the crate README; got: {s}"
    );
}

#[test]
fn error_is_clone_and_eq() {
    let a = Error::NotImplemented;
    let b = a.clone();
    assert_eq!(a, b);
}

#[test]
fn result_alias_resolves() {
    let ok: Result<u32> = Ok(7);
    let err: Result<u32> = Err(Error::NotImplemented);
    assert_eq!(ok, Ok(7));
    assert_eq!(err, Err(Error::NotImplemented));
}

#[test]
fn codec_ids_name_both_variants() {
    assert_eq!(CODEC_ID_CLASSIC, "aptx");
    assert_eq!(CODEC_ID_HD, "aptx_hd");
}
