# asn1rs bit buffer

A bit-level buffer for the unaligned packed encoding rules (UPER) of ASN.1,
written in Verus and verified.

- `src/io/buffer.rs` — `BitBuffer`: a byte vector written and read one bit
  at a time, most significant bit first, with the UPER encodings built on it
  (constrained integers, unconstrained integers, length determinants, bit
  strings, octet strings). Every public function states exactly what it
  returns and how the buffer changes.
- `src/io/model.rs` — `BitView`, the mathematical state of a buffer (bytes,
  write position, read position) and what a write does to it.
- `src/io/uper.rs` — the error type and the encodings and decodings as spec
  functions over bit sequences.
- `src/io/bits.rs`, `src/io/binary.rs` — bits of bytes, binary numbers, and
  the lemmas about them.
- `src/io/laws.rs` — the laws: bits come back in the order they were
  written, and every encoding decodes to the value it was made from.

`tests/` runs the library on concrete inputs.
