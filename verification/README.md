# sai2_parser

A reader for PaintTool SAI Ver.2 (`.sai2`) documents with PNG and layered
PSD writers, written in Verus: every function of the library carries a
contract that Verus proves.

## Layout

- `src/header.rs`, `src/chunk.rs`, `src/document.rs`: the fixed 64-byte
  header and the chunk table, with the outcome of parsing stated exactly
  over the input bytes.
- `src/dpcm.rs`: the LSB-first delta/run-length bit stream shared by the
  merged image and the layers.
- `src/image.rs`: the merged (`intg`) image, 256 x 256 tiles of predicted
  rows.
- `src/layer.rs`: `layr` records and their sparse 32 x 32 `lpix` block
  grids.
- `src/png.rs`: RGBA PNG output with stored DEFLATE blocks, CRC-32 and
  Adler-32.
- `src/psd.rs`: PSD version 1 output with PackBits channels, folder
  dividers and a private `s2ly` block that preserves each layer's source
  chunks.
- `src/bytes.rs`, `src/text.rs`: integer fields and message text.
- `app/main.rs`: the command-line tools `sai2-info`, `sai2-extract`,
  `sai2topng` and `sai2topsd` (file access and argument handling).

Alongside the per-function contracts, the library proves laws such as: the
header ignores trailing bytes; chunk bodies tile the document; decoded images
hold four bytes per canvas pixel; PackBits and stored DEFLATE blocks decode
back to their input; and every size a PSD file announces matches the bytes
that follow it.
