# at3rs

An ATRAC3 encoder workbench whose exact parts are verified with Verus.

## Layout

- `src/`: the verified library.
  - `le`, `riff`: little-endian fields and the RIFF/WAVE containers (16-bit PCM
    WAV and ATRAC3).
  - `huffman`: MSB-first bit reader and writer and Huffman code tables.
  - `sound_unit`, `tonal`, `channel_unit`: coding decisions, bit costs and the
    bit layout of one channel's sound unit, tonal components included.
  - `unit_parse`: the sound-unit reader behind the frame dump tool.
  - `unit_roundtrip`, `unit_size`: the reader and the bit budget held against
    the unit writer.
  - `legacy`, `codec`: the legacy codec path's unit layout and stream parameters.
  - `encoder`, `pcm`, `align`: frame planning, channel interleaving and signal
    alignment.
- `tests/`: tests of the library on concrete values.
- `app/`: the command-line program and tools: file I/O and the floating-point
  signal processing (QMF, MDCT, gain control, tonal detection, bit allocation
  and quantization, evaluation metrics), calling the library for everything
  exact.
