# base32768

Binary data as text, fifteen bits to a character, with Verus proofs.

Each fifteen bits of the input become one character of a fixed repertoire
of 32768 code points; the bits left at the end, padded with ones, become one
more character: a fifteen-bit one where at least eight bits are left, one of
a second repertoire of 128 seven-bit characters where fewer are.

- `encode(bytes) -> String`
- `decode(&str) -> Vec<u8>`: lenient; skips characters outside the
  repertoires and accepts seven-bit characters anywhere. Its fast path reads
  the text in groups of eight characters through a table of the Basic
  Multilingual Plane, so it is not defined on a text whose first group of
  eight (counted in eights from the start) that is not all fifteen-bit
  characters holds a character beyond that plane: its contract requires
  `!lenient_out_of_table(text)`.
- `decoder::decode(&str) -> Result<Vec<u8>, DecodeError>`: strict; reads the
  text as UTF-16 code units. It refuses a last unit in neither repertoire
  (`UnrecognizedCharacter`). Otherwise it reads the units before the last in
  groups, of eight up to the last multiple of eight, then of two, then one
  alone; the first group holding a unit that is not fifteen-bit decides: an
  unknown unit in it is named (`UnrecognizedCharacter`, a surrogate being
  named as NUL), else its first seven-bit unit is located
  (`UnexpectedSecondaryCharacter` with its position). Last it refuses padding
  bits that are not all ones (`PaddingMismatch`). It requires
  that fifteen bits for each unit can be counted in 32 bits.

Layout of `src/`:

- `bits.rs`: bit streams, the model every contract is stated over, and the
  accumulator lemmas.
- `repertoire.rs`: the two repertoires as blocks of code points, and lookups.
- `text.rs`: UTF-16 code units and characters of a string.
- `encoder.rs`, `decoder.rs`, `lib.rs`: the encoder, the strict decoder, the
  lenient decoder.
- `laws.rs`: round trips through both decoders, their agreement, and the
  canonicity of strict decoding.

`app/` holds a copy of `DecodeError` that implements `Display` and
`std::error::Error` through `thiserror`.
