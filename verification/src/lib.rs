//! aptX (classic and HD) audio codec: QMF filter bank, per-subband ADPCM,
//! codeword-history dither, parity sync and the block wire format, with
//! the arithmetic of every stage stated and proved.

use vstd::prelude::*;

pub mod tables;
pub mod subband;
pub mod dither;
pub mod qmf;
pub mod codeword;
pub mod channel;
pub mod encoder;
pub mod decoder;

verus! {

/// Stable codec id under which the framework registry routes an aptX stream.
pub const CODEC_ID_STR: &'static str = "aptx";

/// Codec id of aptX classic (16 bits per channel per block).
pub const CODEC_ID_CLASSIC: &'static str = "aptx";

/// Codec id of aptX HD (24 bits per channel per block).
pub const CODEC_ID_HD: &'static str = "aptx_hd";

/// RIFF/WAVE `wFormatTag` registry assignment for aptX (RFC 2361 §A.24).
pub const WAVE_FORMAT_TAG_APTX: u16 = 0x0025;

/// Crate-local error type.
#[derive(Debug, Clone, PartialEq, Eq, Structural)]
#[non_exhaustive]
pub enum Error {
    /// Reserved placeholder for an entry point that is not available.
    NotImplemented,
}

impl Error {
    /// Human-readable description of the error.
    pub fn message(&self) -> (s: &'static str)
        ensures
            s@ == error_message_text(),
    {
        match self {
            Error::NotImplemented => "oxideav-aptx: clean-room rebuild in progress — see crates/oxideav-aptx/README.md",
        }
    }
}

/// The text that describes `Error::NotImplemented`.
pub open spec fn error_message_text() -> Seq<char> {
    "oxideav-aptx: clean-room rebuild in progress — see crates/oxideav-aptx/README.md"@
}

/// Crate-local result alias.
pub type Result<T> = core::result::Result<T, Error>;

} // verus!
