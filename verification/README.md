# oxideav-aptx

aptX (classic and HD) audio codec for the OxideAV framework, written in
Verus: every stage of the codec carries a contract and a proof.

## Layout

- `src/` — the verified library.
  - `tables.rs` — variant / subband layout and the quantizer tables.
  - `subband.rs` — per-subband ADPCM: prediction, quantization, inverse
    quantization and the adaptive state update.
  - `dither.rs` — codeword-history dither generator.
  - `qmf.rs` — the two-stage QMF analysis and synthesis trees.
  - `codeword.rs` — channel codeword packing, the big-endian block wire
    format and the block parity.
  - `channel.rs` — per-channel state shared by encoder and decoder.
  - `encoder.rs`, `decoder.rs` — stream configuration, block coding,
    framing of PCM and packets, and the 8-block parity sync.
- `app/` — the `oxideav_core::Encoder` / `Decoder` implementations
  (`make_encoder`, `make_decoder`) around the library, and the crate error
  with `Display` and `std::error::Error`.
- `tests/` — unit and end-to-end tests.

## What is proved

Besides an exact functional contract for each function, the library
proves, among others: that unpacking a packed channel codeword or block
gives back its codewords; that a decoder fed with an encoder's output stays
in lock-step with it and never reports a parity error; that splitting the
PCM into frames, or the bytes into packets, anywhere changes neither the
encoded bytes or decoded samples in total nor the codec state; that
changing one codeword by one flips the block parity; that the QMF trees map silence to
silence; that every encoded block carries the parity its sync position
requires, with at most one codeword moved by one; that the quantizer is
monotone and odd and inverse quantization is odd in the codeword; and that every
state update keeps the adaptive state within its bounds.
