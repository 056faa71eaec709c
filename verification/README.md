# capnpack

Cap'n Proto's packing algorithm for byte payloads of any length, with its unpacking,
verified with Verus.

Input is read by words of 8 bytes. Each word becomes a tag byte, whose bit `i` says whether
byte `i` is non-zero, followed by the non-zero bytes. A word of zeros (`0x00`) is followed by
a count of the zero bytes that come after it; a word with no zeros (`0xff`) is followed by a
count and a run of bytes copied as they are. When the input does not end on a word boundary,
the last, short word is written with the tag bits of its missing bytes set to `1`, so that
unpacking knows where to stop. Packed data is therefore not always readable by other
implementations of the algorithm.

Layout:

- `src/format.rs`: the format as spec functions, `pack_spec` and `unpack_spec`.
- `src/bits.rs`, `src/word.rs`: tag bits and the compaction of one word, with their lemmas.
- `src/pack.rs`, `src/unpack.rs`: `pack` and `unpack`, proved to compute `pack_spec` and
  `unpack_spec`; `UnexpectedEOF`, the error of `unpack`.
- `src/laws.rs`: unpacking undoes packing, for every input.
- `tests/`: the behaviour on concrete inputs.
- `app/main.rs`: a small program that unpacks a sample and prints whether it succeeded.
