//! The merged (`intg`) image: 256 x 256 tiles of delta/RLE-coded rows.

use vstd::prelude::*;

use vstd::slice::slice_subrange;

use crate::bytes::{le_u16, le_u32, read_array4, read_u16_le, read_u32_le};
use crate::chunk::{entry_ok, table_valid, Chunk};
use crate::document::{
    kind_at, chunk_body_spec, document_outcome, document_valid, find_first_kind, first_chunk_of_kind,
    lemma_document_chunks, lemma_find_first_kind_none, lemma_find_first_kind_some, Sai2Document,
};
use crate::header::Sai2Header;
use crate::dpcm::{decode_delta_row, delta_row_outcome};
use crate::error::ParseError;

verus! {

/// Side length of an integrated-image tile.
pub const TILE_SIZE: usize = 256;

/// Channels per output pixel.
pub const OUTPUT_CHANNELS: usize = 4;

/// The prediction for a sample from the running value to its left, the
/// sample above it, and the sample above-left: `left + above - upper_left`
/// computed modulo 2^16, floored at zero and capped at 255.
pub open spec fn predict(left: int, above: int, upper_left: int) -> int {
    let a = (left + above) % 65536;
    let b = if a >= upper_left {
        a - upper_left
    } else {
        0
    };
    if b > 255 {
        255
    } else {
        b
    }
}

/// The running 16-bit value of channel `c` after pixel `x` of a row whose
/// deltas are `deltas` (four per pixel) and whose previous row is `prev`
/// (four bytes per pixel).
pub open spec fn recon_sum(deltas: Seq<i16>, prev: Seq<u8>, c: int, x: int) -> int
    decreases x,
{
    if x < 0 {
        0
    } else {
        let left = if x == 0 {
            0
        } else {
            recon_sum(deltas, prev, c, x - 1)
        };
        let upper_left = if x == 0 {
            0
        } else {
            prev[(x - 1) * 4 + c] as int
        };
        (predict(left, prev[x * 4 + c] as int, upper_left) + (deltas[x * 4 + c] as u16) as int)
            % 65536
    }
}

/// The output byte for channel `c` of pixel `x`: the running value capped
/// at 255, or 255 for the alpha channel of a three-channel image.
pub open spec fn recon_byte(deltas: Seq<i16>, prev: Seq<u8>, c: int, x: int, in_ch: int) -> u8 {
    if c == 3 && in_ch == 3 {
        255
    } else {
        let v = recon_sum(deltas, prev, c, x);
        if v > 255 {
            255u8
        } else {
            v as u8
        }
    }
}

/// A reconstructed row of `w` pixels, four bytes (B, G, R, A) per pixel.
pub open spec fn recon_row(deltas: Seq<i16>, prev: Seq<u8>, w: int, in_ch: int) -> Seq<u8> {
    Seq::new((w * 4) as nat, |i: int| recon_byte(deltas, prev, i % 4, i / 4, in_ch))
}

proof fn lemma_div_mod4(x: int, c: int)
    requires
        0 <= x,
        0 <= c < 4,
    ensures
        (x * 4 + c) / 4 == x,
        (x * 4 + c) % 4 == c,
{
}

/// One predictor step: the new running value from the previous running
/// value, the samples above and above-left, and the delta.
fn predict_step(left: u16, above: u16, upper_left: u16, delta: i16) -> (r: u16)
    ensures
        r as int == (predict(left as int, above as int, upper_left as int) + (delta as u16) as int)
            % 65536,
{
    let predicted = left.wrapping_add(above).saturating_sub(upper_left).saturating_add(
        0xff00,
    ).saturating_sub(0xff00);
    predicted.wrapping_add(delta as u16)
}

/// Restores one row of `pixel_count` pixels from its deltas and the
/// previous row with the left/up/up-left predictor.
#[verifier::spinoff_prover]
#[verifier::rlimit(30)]
pub fn reconstruct_row(
    deltas: &Vec<i16>,
    previous_row: &Vec<u8>,
    pixel_count: usize,
    input_channels: usize,
) -> (r: Vec<u8>)
    requires
        deltas@.len() >= pixel_count * 4,
        previous_row@.len() >= pixel_count * 4,
        pixel_count * 4 <= usize::MAX,
    ensures
        r@ == recon_row(deltas@, previous_row@, pixel_count as int, input_channels as int),
{
    let mut result: Vec<u8> = Vec::new();
    let mut sums: [u16; 4] = [0; 4];
    let mut previous_above: [u16; 4] = [0; 4];
    let ghost d = deltas@;
    let ghost p = previous_row@;
    let ghost ic = input_channels as int;
    let mut x: usize = 0;
    while x < pixel_count
        invariant
            d == deltas@,
            p == previous_row@,
            ic == input_channels,
            d.len() >= pixel_count * 4,
            p.len() >= pixel_count * 4,
            pixel_count * 4 <= usize::MAX,
            x <= pixel_count,
            result@.len() == x * 4,
            forall|i: int| 0 <= i < x * 4 ==> result@[i] == recon_byte(d, p, i % 4, i / 4, ic),
            forall|c: int|
                0 <= c < 4 ==> sums@[c] as int == (if x == 0 {
                    0
                } else {
                    recon_sum(d, p, c, x - 1)
                }),
            forall|c: int|
                0 <= c < 4 ==> previous_above@[c] as int == (if x == 0 {
                    0
                } else {
                    p[(x - 1) * 4 + c] as int
                }),
        decreases pixel_count - x,
    {
        let base = x * 4;
        let ghost old_result = result@;
        let a0 = previous_row[base] as u16;
        let a1 = previous_row[base + 1] as u16;
        let a2 = previous_row[base + 2] as u16;
        let a3 = previous_row[base + 3] as u16;
        let s0 = predict_step(sums[0], a0, previous_above[0], deltas[base]);
        let s1 = predict_step(sums[1], a1, previous_above[1], deltas[base + 1]);
        let s2 = predict_step(sums[2], a2, previous_above[2], deltas[base + 2]);
        let s3 = predict_step(sums[3], a3, previous_above[3], deltas[base + 3]);
        sums = [s0, s1, s2, s3];
        previous_above = [a0, a1, a2, a3];
        result.push(if s0 > 255 { 255 } else { s0 as u8 });
        result.push(if s1 > 255 { 255 } else { s1 as u8 });
        result.push(if s2 > 255 { 255 } else { s2 as u8 });
        if input_channels == 3 {
            result.push(255);
        } else {
            result.push(if s3 > 255 { 255 } else { s3 as u8 });
        }
        proof {
            assert forall|c: int| 0 <= c < 4 implies sums@[c] as int == recon_sum(d, p, c, x as int) by {
                lemma_div_mod4(x as int, c);
            }
            assert forall|i: int| 0 <= i < (x + 1) * 4 implies result@[i] == recon_byte(
                d,
                p,
                i % 4,
                i / 4,
                ic,
            ) by {
                if i >= x * 4 {
                    lemma_div_mod4(x as int, i - x * 4);
                } else {
                    assert(result@[i] == old_result[i]);
                }
            }
        }
        x = x + 1;
    }
    assert(result@ =~= recon_row(d, p, pixel_count as int, ic));
    result
}

/// Each running value after the first pixel of a row is the previous
/// running value plus the sample above minus the sample above-left (the sum
/// taken modulo 2^16, then floored at zero and capped at 255), plus the
/// sample's delta, modulo 2^16.
pub proof fn lemma_recon_step(deltas: Seq<i16>, prev: Seq<u8>, c: int, x: int)
    requires
        0 <= c < 4,
        0 < x,
    ensures
        ({
            let left = recon_sum(deltas, prev, c, x - 1);
            let above = prev[x * 4 + c] as int;
            let upper_left = prev[(x - 1) * 4 + c] as int;
            let t = (left + above) % 65536 - upper_left;
            let p = if t < 0 {
                0
            } else if t > 255 {
                255
            } else {
                t
            };
            recon_sum(deltas, prev, c, x) == (p + (deltas[x * 4 + c] as u16) as int) % 65536
        }),
{
}

/// The first running value of a row is the sample above (a byte, so never
/// capped) plus the delta, modulo 2^16; each output byte is its running
/// value capped at 255, except the alpha of a three-channel image, which is
/// 255.
pub proof fn lemma_recon_first_and_bytes(deltas: Seq<i16>, prev: Seq<u8>, c: int, x: int, in_ch: int)
    requires
        0 <= c < 4,
        0 <= x,
    ensures
        recon_sum(deltas, prev, c, 0) == (prev[c] as int + (deltas[c] as u16) as int) % 65536,
        0 <= recon_sum(deltas, prev, c, x) < 65536,
        recon_byte(deltas, prev, c, x, in_ch) as int == (if c == 3 && in_ch == 3 {
            255
        } else if recon_sum(deltas, prev, c, x) > 255 {
            255
        } else {
            recon_sum(deltas, prev, c, x)
        }),
{
    assert(0 * 4 + c == c);
}

/// A row whose deltas are zero after its first pixel, over a previous row
/// that is flat in channel `c`, is flat too: every running value of channel
/// `c` equals the first one, as long as that first value is a byte. So a
/// flat-colour image stays flat row after row.
pub proof fn lemma_flat_row(deltas: Seq<i16>, prev: Seq<u8>, w: int, c: int)
    requires
        0 <= c < 4,
        deltas.len() >= w * 4,
        prev.len() >= w * 4,
        forall|x: int| 0 <= x < w ==> #[trigger] prev[x * 4 + c] == prev[c],
        forall|x: int| 0 < x < w ==> #[trigger] deltas[x * 4 + c] == 0,
        (prev[c] as int + (deltas[c] as u16) as int) % 65536 <= 255,
    ensures
        forall|x: int|
            0 <= x < w ==> #[trigger] recon_sum(deltas, prev, c, x) == (prev[c] as int + (
            deltas[c] as u16) as int) % 65536,
{
    let v = (prev[c] as int + (deltas[c] as u16) as int) % 65536;
    assert forall|x: int| 0 <= x < w implies #[trigger] recon_sum(deltas, prev, c, x) == v by {
        lemma_flat_row_at(deltas, prev, w, c, x);
    }
}

proof fn lemma_flat_row_at(deltas: Seq<i16>, prev: Seq<u8>, w: int, c: int, x: int)
    requires
        0 <= c < 4,
        0 <= x < w,
        deltas.len() >= w * 4,
        prev.len() >= w * 4,
        forall|x: int| 0 <= x < w ==> #[trigger] prev[x * 4 + c] == prev[c],
        forall|x: int| 0 < x < w ==> #[trigger] deltas[x * 4 + c] == 0,
        (prev[c] as int + (deltas[c] as u16) as int) % 65536 <= 255,
    ensures
        recon_sum(deltas, prev, c, x) == (prev[c] as int + (deltas[c] as u16) as int) % 65536,
    decreases x,
{
    if x > 0 {
        lemma_flat_row_at(deltas, prev, w, c, x - 1);
        assert(prev[x * 4 + c] == prev[c]);
        assert(prev[(x - 1) * 4 + c] == prev[c]);
        assert(deltas[x * 4 + c] == 0);
    } else {
        assert(prev[0 * 4 + c] == prev[c]);
    }
}

/// `n` zero deltas.
pub open spec fn zero_deltas(n: int) -> Seq<i16> {
    Seq::new(n as nat, |i: int| 0i16)
}

/// `n` zero bytes.
pub open spec fn zero_bytes(n: int) -> Seq<u8> {
    Seq::new(n as nat, |i: int| 0u8)
}

/// Decodes rows `row..tile_h` of a tile from `data`, each row being
/// reconstructed against the one before it (`prev`). The result is the
/// undecoded rest of `data` and all reconstructed rows.
pub open spec fn tile_rows_run(
    data: Seq<u8>,
    prev: Seq<u8>,
    row: int,
    tile_h: int,
    tile_w: int,
    in_ch: int,
    rows: Seq<Seq<u8>>,
) -> Result<(Seq<u8>, Seq<Seq<u8>>), &'static str>
    decreases tile_h - row,
{
    if row >= tile_h {
        Ok((data, rows))
    } else {
        match delta_row_outcome(data, zero_deltas(tile_w * 4), tile_w, in_ch, 4) {
            Err((e, _)) => Err(e),
            Ok((n, d)) => if n > data.len() {
                Err("row consumed beyond tile data")
            } else {
                let cur = recon_row(d, prev, tile_w, in_ch);
                tile_rows_run(
                    data.subrange(n, data.len() as int),
                    cur,
                    row + 1,
                    tile_h,
                    tile_w,
                    in_ch,
                    rows.push(cur),
                )
            },
        }
    }
}

/// The error for a two-byte marker that should hold `(index << 8) | 0xff`.
pub open spec fn marker_error(marker: int, index: int) -> Option<&'static str> {
    if index > 65535 {
        Some("tile marker index overflow")
    } else if marker != (index * 256) % 65536 + 255 {
        Some("unexpected tile marker")
    } else {
        None
    }
}

/// Decodes one sized tile blob: its marker, `tile_h` rows of `tile_w`
/// pixels, and nothing after them.
pub open spec fn decode_tile(tile: Seq<u8>, tile_x: int, tile_w: int, tile_h: int, in_ch: int) -> Result<
    Seq<Seq<u8>>,
    &'static str,
> {
    if tile.len() < 2 {
        Err("tile is missing its marker")
    } else if marker_error(le_u16(tile, 0), tile_x) is Some {
        Err(marker_error(le_u16(tile, 0), tile_x).unwrap())
    } else {
        match tile_rows_run(
            tile.subrange(2, tile.len() as int),
            zero_bytes(tile_w * 4),
            0,
            tile_h,
            tile_w,
            in_ch,
            Seq::empty(),
        ) {
            Err(e) => Err(e),
            Ok((rest, rows)) => if rest.len() != 0 {
                Err("tile has unused compressed bytes")
            } else {
                Ok(rows)
            },
        }
    }
}

/// Which byte of a B, G, R, A pixel supplies output channel `c` of an
/// R, G, B, A pixel.
pub open spec fn bgra_source(c: int) -> int {
    if c == 0 {
        2
    } else if c == 2 {
        0
    } else {
        c
    }
}

/// `pixels` with the first `w` pixels of the BGRA row `row` written as RGBA
/// starting at byte `base`.
pub open spec fn write_row_spec(pixels: Seq<u8>, row: Seq<u8>, base: int, w: int) -> Seq<u8> {
    Seq::new(
        pixels.len(),
        |i: int|
            if base <= i < base + 4 * w {
                row[(i - base) - (i - base) % 4 + bgra_source((i - base) % 4)]
            } else {
                pixels[i]
            },
    )
}

/// Byte position of pixel (`x`, `y`) of an image `width` pixels wide.
pub open spec fn pixel_base(x: int, y: int, width: int) -> int {
    (y * width + x) * 4
}

/// `pixels` with the rows of a tile at tile position (`tile_x`, `tile_y`)
/// written in, each `w` pixels wide.
pub open spec fn blit_rows(
    pixels: Seq<u8>,
    rows: Seq<Seq<u8>>,
    tile_x: int,
    tile_y: int,
    width: int,
    w: int,
) -> Seq<u8>
    decreases rows.len(),
{
    if rows.len() == 0 {
        pixels
    } else {
        write_row_spec(
            blit_rows(pixels, rows.drop_last(), tile_x, tile_y, width, w),
            rows.last(),
            pixel_base(tile_x * 256, tile_y * 256 + rows.len() - 1, width),
            w,
        )
    }
}

/// Width in pixels of the tile in column `tile_x` of an image `width` wide.
pub open spec fn tile_extent(size: int, index: int) -> int {
    if size - index * 256 < 256 {
        size - index * 256
    } else {
        256
    }
}

/// Decodes the tiles from tile (`tile_x`, `tile_y`) on, tile rows being
/// separated by row markers, starting at byte `pos` of `body` with the
/// pixels decoded so far. The result is the position after the last row
/// marker and the decoded pixels.
pub open spec fn band_run(
    body: Seq<u8>,
    sizes: Seq<int>,
    pos: int,
    tile_y: int,
    tile_x: int,
    tiles_x: int,
    tiles_y: int,
    width: int,
    height: int,
    in_ch: int,
    pixels: Seq<u8>,
) -> Result<(int, Seq<u8>), &'static str>
    decreases tiles_y - tile_y, tiles_x - tile_x,
{
    if tile_y >= tiles_y {
        Ok((pos, pixels))
    } else if tile_x >= tiles_x {
        if pos + 2 > usize::MAX {
            Err("tile-row marker overflow")
        } else if pos + 2 > body.len() {
            Err("missing tile-row marker")
        } else if marker_error(le_u16(body, pos), tiles_x) is Some {
            Err(marker_error(le_u16(body, pos), tiles_x).unwrap())
        } else {
            band_run(
                body,
                sizes,
                pos + 2,
                tile_y + 1,
                0,
                tiles_x,
                tiles_y,
                width,
                height,
                in_ch,
                pixels,
            )
        }
    } else {
        let size = sizes[tile_y * tiles_x + tile_x];
        if pos + size > usize::MAX {
            Err("tile range overflow")
        } else if pos + size > body.len() {
            Err("truncated tile data")
        } else {
            let tw = tile_extent(width, tile_x);
            match decode_tile(
                body.subrange(pos, pos + size),
                tile_x,
                tw,
                tile_extent(height, tile_y),
                in_ch,
            ) {
                Err(e) => Err(e),
                Ok(rows) => band_run(
                    body,
                    sizes,
                    pos + size,
                    tile_y,
                    tile_x + 1,
                    tiles_x,
                    tiles_y,
                    width,
                    height,
                    in_ch,
                    blit_rows(pixels, rows, tile_x, tile_y, width, tw),
                ),
            }
        }
    }
}

/// Checks a two-byte tile or tile-row marker.
pub fn validate_marker(marker: u16, expected_index: usize) -> (r: Result<(), ParseError>)
    ensures
        match marker_error(marker as int, expected_index as int) {
            Some(e) => r == Err::<(), ParseError>(ParseError::MalformedDpcm { reason: e }),
            None => r is Ok,
        },
{
    if expected_index > 65535 {
        return Err(ParseError::MalformedDpcm { reason: "tile marker index overflow" });
    }
    let shifted = ((expected_index as u32 * 256) % 65536) as u16;
    let expected = shifted + 255;
    if marker != expected {
        return Err(ParseError::MalformedDpcm { reason: "unexpected tile marker" });
    }
    Ok(())
}

/// Writes the first `w` pixels of a BGRA row into `pixels` as RGBA starting
/// at byte `base`.
fn write_row(pixels: &mut Vec<u8>, row: &Vec<u8>, base: usize, w: usize)
    requires
        base + 4 * w <= old(pixels)@.len(),
        4 * w <= row@.len(),
    ensures
        final(pixels)@ == write_row_spec(old(pixels)@, row@, base as int, w as int),
        final(pixels)@.len() == old(pixels)@.len(),
{
    let ghost p0 = pixels@;
    let plen = pixels.len();
    let mut x: usize = 0;
    while x < w
        invariant
            x <= w,
            base + 4 * w <= plen,
            plen == p0.len(),
            base + 4 * w <= p0.len(),
            4 * w <= row@.len(),
            p0 == old(pixels)@,
            pixels@ == write_row_spec(p0, row@, base as int, x as int),
        decreases w - x,
    {
        let src = x * 4;
        let dst = base + x * 4;
        let ghost before = pixels@;
        pixels.set(dst, row[src + 2]);
        pixels.set(dst + 1, row[src + 1]);
        pixels.set(dst + 2, row[src]);
        pixels.set(dst + 3, row[src + 3]);
        proof {
            assert forall|i: int| 0 <= i < p0.len() implies #[trigger] pixels@[i] == write_row_spec(
                p0,
                row@,
                base as int,
                (x + 1) as int,
            )[i] by {
                if base + 4 * x <= i < base + 4 * x + 4 {
                    assert((i - base) - (i - base) % 4 == 4 * x);
                } else {
                    assert(pixels@[i] == before[i]);
                }
            }
            assert(pixels@ =~= write_row_spec(p0, row@, base as int, (x + 1) as int));
        }
        x = x + 1;
    }
}

proof fn lemma_row_base(y: int, x: int, w: int, width: int, height: int)
    requires
        0 <= y < height,
        0 <= x,
        0 <= w,
        x + w <= width,
    ensures
        0 <= y * width,
        y * width + x + w <= width * height,
        pixel_base(x, y, width) + 4 * w <= width * height * 4,
{
    assert(0 <= y * width) by (nonlinear_arith)
        requires
            0 <= y,
            0 <= width,
    ;
    assert(y * width + width <= width * height) by (nonlinear_arith)
        requires
            0 <= y < height,
            0 <= width,
    ;
}

/// Decodes one tile blob and writes its rows into `pixels` at tile position
/// (`tile_x`, `tile_y`) of an image `width` pixels wide.
fn decode_tile_into(
    tile: &[u8],
    tile_x: usize,
    tile_y: usize,
    tile_w: usize,
    tile_h: usize,
    in_ch: usize,
    width: usize,
    height: usize,
    pixels: &mut Vec<u8>,
) -> (r: Result<(), ParseError>)
    requires
        1 <= tile_w <= 256,
        1 <= tile_h <= 256,
        in_ch == 3 || in_ch == 4,
        tile_x * 256 + tile_w <= width,
        tile_y * 256 + tile_h <= height,
        old(pixels)@.len() == width * height * 4,
        width * height * 4 <= usize::MAX,
    ensures
        match decode_tile(tile@, tile_x as int, tile_w as int, tile_h as int, in_ch as int) {
            Ok(rows) => r is Ok && final(pixels)@ == blit_rows(
                old(pixels)@,
                rows,
                tile_x as int,
                tile_y as int,
                width as int,
                tile_w as int,
            ),
            Err(e) => r == Err::<(), ParseError>(ParseError::MalformedDpcm { reason: e }),
        },
        final(pixels)@.len() == old(pixels)@.len(),
{
    if tile.len() < 2 {
        return Err(ParseError::MalformedDpcm { reason: "tile is missing its marker" });
    }
    match validate_marker(read_u16_le(tile, 0), tile_x) {
        Ok(()) => {},
        Err(e) => {
            return Err(e);
        },
    }
    let ghost p0 = pixels@;
    let ghost data0 = tile@.subrange(2, tile@.len() as int);
    let mut rest = slice_subrange(tile, 2, tile.len());
    let mut previous_row: Vec<u8> = vec![0u8; tile_w * 4];
    assert(previous_row@ =~= zero_bytes(tile_w * 4));
    let ghost mut rows: Seq<Seq<u8>> = Seq::empty();
    let mut row: usize = 0;
    while row < tile_h
        invariant
            1 <= tile_w <= 256,
            1 <= tile_h <= 256,
            in_ch == 3 || in_ch == 4,
            tile_x * 256 + tile_w <= width,
            tile_y * 256 + tile_h <= height,
            p0 == old(pixels)@,
            p0.len() == width * height * 4,
            width * height * 4 <= usize::MAX,
            tile@.len() >= 2,
            marker_error(le_u16(tile@, 0), tile_x as int) is None,
            data0 == tile@.subrange(2, tile@.len() as int),
            row <= tile_h,
            rows.len() == row,
            previous_row@.len() == tile_w * 4,
            pixels@.len() == p0.len(),
            pixels@ == blit_rows(p0, rows, tile_x as int, tile_y as int, width as int, tile_w as int),
            tile_rows_run(data0, zero_bytes(tile_w * 4), 0, tile_h as int, tile_w as int, in_ch as int, Seq::empty())
                == tile_rows_run(rest@, previous_row@, row as int, tile_h as int, tile_w as int, in_ch as int, rows),
        decreases tile_h - row,
    {
        let mut deltas: Vec<i16> = vec![0i16; tile_w * 4];
        assert(deltas@ =~= zero_deltas(tile_w * 4));
        let consumed = match decode_delta_row(rest, &mut deltas, tile_w, in_ch, 4) {
            Ok(n) => n,
            Err(e) => {
                return Err(e);
            },
        };
        if consumed > rest.len() {
            return Err(ParseError::MalformedDpcm { reason: "row consumed beyond tile data" });
        }
        rest = slice_subrange(rest, consumed, rest.len());
        let current = reconstruct_row(&deltas, &previous_row, tile_w, in_ch);
        proof {
            lemma_row_base(
                (tile_y * 256 + row) as int,
                (tile_x * 256) as int,
                tile_w as int,
                width as int,
                height as int,
            );
        }
        let base = ((tile_y * 256 + row) * width + tile_x * 256) * 4;
        write_row(pixels, &current, base, tile_w);
        proof {
            let new_rows = rows.push(current@);
            assert(new_rows.drop_last() =~= rows);
            rows = new_rows;
        }
        previous_row = current;
        row = row + 1;
    }
    if rest.len() != 0 {
        return Err(ParseError::MalformedDpcm { reason: "tile has unused compressed bytes" });
    }
    Ok(())
}

/// The tag `intg`.
pub open spec fn intg_tag() -> Seq<u8> {
    seq![105u8, 110, 116, 103]
}

/// The tag `dpcm`.
pub open spec fn dpcm_tag() -> Seq<u8> {
    seq![100u8, 112, 99, 109]
}

/// Number of 256-pixel tiles needed to cover `n` pixels.
pub open spec fn tiles_for(n: int) -> int {
    n / 256 + if n % 256 != 0 {
        1int
    } else {
        0int
    }
}

/// Coded channels of the integrated image for header flags `flags`.
pub open spec fn integrated_channels(flags: int) -> int {
    if (flags / 256) % 8 == 0 {
        4
    } else {
        3
    }
}

/// The tile-size table of an `intg` body with `count` tiles.
pub open spec fn tile_sizes(body: Seq<u8>, count: int) -> Seq<int> {
    Seq::new(count as nat, |i: int| le_u32(body, 4 + 4 * i))
}

/// Decodes the body of an `intg` chunk into `w * h` RGBA pixels.
pub open spec fn integrated_body_spec(body: Seq<u8>, w: int, h: int, in_ch: int) -> Result<Seq<u8>, ParseError> {
    let tx = tiles_for(w);
    let ty = tiles_for(h);
    if body.len() < 4 {
        Err(ParseError::MalformedDpcm { reason: "truncated integrated-image header" })
    } else if body.subrange(0, 4) != dpcm_tag() {
        Err(ParseError::UnsupportedIntegratedImage { found: [body[0], body[1], body[2], body[3]] })
    } else if tx > 255 {
        Err(ParseError::MalformedDpcm { reason: "tile row has more than 255 columns" })
    } else if tx * ty > usize::MAX {
        Err(ParseError::MalformedDpcm { reason: "tile count overflow" })
    } else if 4 + 4 * (tx * ty) > usize::MAX {
        Err(ParseError::MalformedDpcm { reason: "tile-size table overflow" })
    } else if body.len() < 4 + 4 * (tx * ty) {
        Err(ParseError::MalformedDpcm { reason: "truncated tile-size table" })
    } else {
        match band_run(
            body,
            tile_sizes(body, tx * ty),
            4 + 4 * (tx * ty),
            0,
            0,
            tx,
            ty,
            w,
            h,
            in_ch,
            zero_bytes(w * h * 4),
        ) {
            band => integrated_finish(body, band),
        }
    }
}

/// The image from the outcome `band` of decoding all tiles of `body`: the
/// bytes after the last tile row must be at most three zero bytes.
pub open spec fn integrated_finish(body: Seq<u8>, band: Result<(int, Seq<u8>), &'static str>) -> Result<Seq<u8>, ParseError> {
    match band {
        Err(e) => Err(ParseError::MalformedDpcm { reason: e }),
        Ok((pos, px)) => if body.len() - pos > 3 || (exists|i: int| pos <= i < body.len() && body[i] != 0) {
            Err(ParseError::MalformedDpcm { reason: "invalid chunk padding" })
        } else {
            Ok(px)
        },
    }
}

/// The merged image of a document `s` whose header and chunk table are
/// valid, as RGBA bytes, or the error that decoding it reports.
pub open spec fn integrated_spec(s: Seq<u8>, max_pixels: u64) -> Result<Seq<u8>, ParseError> {
    let w = le_u32(s, 20);
    let h = le_u32(s, 24);
    let count = le_u32(s, 32);
    if w == 0 || h == 0 {
        Err(ParseError::InvalidImageDimensions { width: w as u32, height: h as u32 })
    } else if w * h > max_pixels {
        Err(ParseError::ImageTooLarge { pixels: (w * h) as u64, max_pixels })
    } else if w * h * 4 > usize::MAX {
        Err(ParseError::InvalidImageDimensions { width: w as u32, height: h as u32 })
    } else {
        match find_first_kind(s, count, intg_tag(), 0) {
            None => Err(ParseError::MissingIntegratedImage),
            Some(k) => integrated_body_spec(
                chunk_body_spec(s, count, k),
                w,
                h,
                integrated_channels(le_u32(s, 16)),
            ),
        }
    }
}

/// Resource limits applied before image decoding allocates output.
#[derive(Debug, Clone, Copy, PartialEq, Eq)]
pub struct DecodeLimits {
    /// Maximum number of output pixels.
    pub max_pixels: u64,
}

impl Default for DecodeLimits {
    fn default() -> (r: Self)
        ensures
            r.max_pixels == 64 * 1024 * 1024,
    {
        DecodeLimits { max_pixels: 64 * 1024 * 1024 }
    }
}

/// An eight-bit RGBA image.
#[derive(Debug, Clone, PartialEq, Eq)]
pub struct RgbaImage {
    width: u32,
    height: u32,
    pixels: Vec<u8>,
}

impl RgbaImage {
    pub closed spec fn spec_width(&self) -> u32 {
        self.width
    }

    pub closed spec fn spec_height(&self) -> u32 {
        self.height
    }

    /// Row-major pixels in red, green, blue, alpha byte order.
    pub closed spec fn pixel_data(&self) -> Seq<u8> {
        self.pixels@
    }

    pub fn from_pixels(width: u32, height: u32, pixels: Vec<u8>) -> (r: Self)
        ensures
            r.width() == width,
            r.height() == height,
            r.pixel_data() == pixels@,
    {
        RgbaImage { width, height, pixels }
    }

    #[verifier::when_used_as_spec(spec_width)]
    pub fn width(&self) -> (r: u32)
        ensures
            r == self.spec_width(),
    {
        self.width
    }

    #[verifier::when_used_as_spec(spec_height)]
    pub fn height(&self) -> (r: u32)
        ensures
            r == self.spec_height(),
    {
        self.height
    }

    /// Returns row-major pixels in red, green, blue, alpha byte order.
    pub fn pixels(&self) -> (r: &[u8])
        ensures
            r@ == self.pixel_data(),
    {
        self.pixels.as_slice()
    }
}

fn invalid_dimensions(header: &Sai2Header) -> (r: ParseError)
    ensures
        r == (ParseError::InvalidImageDimensions { width: header.width(), height: header.height() }),
{
    ParseError::InvalidImageDimensions { width: header.width(), height: header.height() }
}

fn malformed(reason: &'static str) -> (r: ParseError)
    ensures
        r == (ParseError::MalformedDpcm { reason }),
{
    ParseError::MalformedDpcm { reason }
}

proof fn lemma_tile_index(ty: int, tx: int, tiles_x: int, tiles_y: int)
    requires
        0 <= ty < tiles_y,
        0 <= tx < tiles_x,
    ensures
        0 <= ty * tiles_x + tx < tiles_x * tiles_y,
{
    assert(ty * tiles_x + tx < tiles_x * tiles_y) by (nonlinear_arith)
        requires
            0 <= ty < tiles_y,
            0 <= tx < tiles_x,
    ;
    assert(0 <= ty * tiles_x) by (nonlinear_arith)
        requires
            0 <= ty,
            0 <= tiles_x,
    ;
}

/// Decodes all tiles of an `intg` body whose tile-size table ends at
/// `table_end`, into an image `width` x `height` with `in_ch` coded
/// channels. The result is the position after the last tile-row marker and
/// the pixels.
fn decode_tiles(
    body: &[u8],
    tile_sizes_vec: &Vec<usize>,
    table_end: usize,
    tiles_x: usize,
    tiles_y: usize,
    width: usize,
    height: usize,
    input_channels: usize,
) -> (r: Result<(usize, Vec<u8>), ParseError>)
    requires
        input_channels == 3 || input_channels == 4,
        1 <= width,
        1 <= height,
        tiles_x == tiles_for(width as int),
        tiles_y == tiles_for(height as int),
        tiles_x <= 255,
        tile_sizes_vec@.len() == tiles_x * tiles_y,
        tiles_x * tiles_y <= usize::MAX,
        table_end <= body@.len(),
        width * height * 4 <= usize::MAX,
    ensures
        r matches Ok((p, v)) ==> p <= body@.len(),
        match band_run(
            body@,
            Seq::new(tile_sizes_vec@.len(), |i: int| tile_sizes_vec@[i] as int),
            table_end as int,
            0,
            0,
            tiles_x as int,
            tiles_y as int,
            width as int,
            height as int,
            input_channels as int,
            zero_bytes(width * height * 4),
        ) {
            Ok((pos, px)) => r matches Ok((p, v)) && p == pos && v@ == px,
            Err(e) => r == Err::<(usize, Vec<u8>), ParseError>(ParseError::MalformedDpcm { reason: e }),
        },
{
    let ghost sizes = Seq::new(tile_sizes_vec@.len(), |i: int| tile_sizes_vec@[i] as int);
    let ghost w = width as int;
    let ghost h = height as int;
    let ghost ic = input_channels as int;
    let ghost b = body@;
    let mut pixels: Vec<u8> = vec![0u8; width * height * 4];
    assert(pixels@ =~= zero_bytes(w * h * 4));
    let ghost full = band_run(b, sizes, table_end as int, 0, 0, tiles_x as int, tiles_y as int, w, h, ic, zero_bytes(w * h * 4));
    let mut body_offset = table_end;
    let mut tile_y: usize = 0;
    while tile_y < tiles_y
        invariant
            b == body@,
            w == width,
            h == height,
            ic == input_channels,
            ic == 3 || ic == 4,
            1 <= width,
            1 <= height,
            tiles_x == tiles_for(w),
            tiles_y == tiles_for(h),
            tiles_x <= 255,
            tile_sizes_vec@.len() == tiles_x * tiles_y,
            tiles_x * tiles_y <= usize::MAX,
            full == band_run(b, sizes, table_end as int, 0, 0, tiles_x as int, tiles_y as int, w, h, ic, zero_bytes(w * h * 4)),
            sizes == Seq::new(tile_sizes_vec@.len(), |i: int| tile_sizes_vec@[i] as int),
            body_offset <= body@.len(),
            tile_y <= tiles_y,
            pixels@.len() == w * h * 4,
            w * h * 4 <= usize::MAX,
            full == band_run(b, sizes, body_offset as int, tile_y as int, 0, tiles_x as int, tiles_y as int, w, h, ic, pixels@),
        decreases tiles_y - tile_y,
    {
        let tile_height = if height - tile_y * TILE_SIZE < TILE_SIZE {
            height - tile_y * TILE_SIZE
        } else {
            TILE_SIZE
        };
        let mut tile_x: usize = 0;
        while tile_x < tiles_x
            invariant
                b == body@,
                w == width,
                h == height,
                ic == input_channels,
                ic == 3 || ic == 4,
                1 <= width,
                1 <= height,
                tiles_x == tiles_for(w),
                tiles_y == tiles_for(h),
                tiles_x <= 255,
                tile_sizes_vec@.len() == tiles_x * tiles_y,
                tiles_x * tiles_y <= usize::MAX,
                full == band_run(b, sizes, table_end as int, 0, 0, tiles_x as int, tiles_y as int, w, h, ic, zero_bytes(w * h * 4)),
                sizes == Seq::new(tile_sizes_vec@.len(), |i: int| tile_sizes_vec@[i] as int),
                body_offset <= body@.len(),
                tile_y < tiles_y,
                tile_x <= tiles_x,
                tile_height == tile_extent(h, tile_y as int),
                1 <= tile_height <= 256,
                tile_y * 256 + tile_height <= height,
                pixels@.len() == w * h * 4,
                w * h * 4 <= usize::MAX,
                full == band_run(b, sizes, body_offset as int, tile_y as int, tile_x as int, tiles_x as int, tiles_y as int, w, h, ic, pixels@),
            decreases tiles_x - tile_x,
        {
            proof {
                lemma_tile_index(tile_y as int, tile_x as int, tiles_x as int, tiles_y as int);
            }
            let table_index = tile_y * tiles_x + tile_x;
            let tile_size = tile_sizes_vec[table_index];
            let tile_end = match body_offset.checked_add(tile_size) {
                Some(v) => v,
                None => {
                    return Err(malformed("tile range overflow"));
                },
            };
            if tile_end > body.len() {
                return Err(malformed("truncated tile data"));
            }
            let tile = slice_subrange(body, body_offset, tile_end);
            let tile_width = if width - tile_x * TILE_SIZE < TILE_SIZE {
                width - tile_x * TILE_SIZE
            } else {
                TILE_SIZE
            };
            match decode_tile_into(
                tile,
                tile_x,
                tile_y,
                tile_width,
                tile_height,
                input_channels,
                width,
                height,
                &mut pixels,
            ) {
                Ok(()) => {},
                Err(e) => {
                    return Err(e);
                },
            }
            body_offset = tile_end;
            tile_x = tile_x + 1;
        }
        let marker_end = match body_offset.checked_add(2) {
            Some(v) => v,
            None => {
                return Err(malformed("tile-row marker overflow"));
            },
        };
        if marker_end > body.len() {
            return Err(malformed("missing tile-row marker"));
        }
        match validate_marker(read_u16_le(body, body_offset), tiles_x) {
            Ok(()) => {},
            Err(e) => {
                return Err(e);
            },
        }
        body_offset = marker_end;
        tile_y = tile_y + 1;
    }
    Ok((body_offset, pixels))
}

/// Checks that the bytes of `body` from `pos` on are at most three zero
/// bytes of padding.
fn check_padding(body: &[u8], pos: usize) -> (r: Result<(), ParseError>)
    requires
        pos <= body@.len(),
    ensures
        r is Ok <==> !(body@.len() - pos > 3 || (exists|i: int| pos <= i < body@.len() && body@[i] != 0)),
        r is Err ==> r == Err::<(), ParseError>(ParseError::MalformedDpcm { reason: "invalid chunk padding" }),
{
    if body.len() - pos > 3 {
        return Err(malformed("invalid chunk padding"));
    }
    let mut i = pos;
    while i < body.len()
        invariant
            pos <= i <= body@.len(),
            forall|j: int| pos <= j < i ==> body@[j] == 0,
        decreases body@.len() - i,
    {
        if body[i] != 0 {
            return Err(malformed("invalid chunk padding"));
        }
        i = i + 1;
    }
    Ok(())
}

/// Decodes the body of an `intg` chunk into `width * height` RGBA pixels.
fn decode_integrated_body(body: &[u8], width: usize, height: usize, input_channels: usize) -> (r: Result<Vec<u8>, ParseError>)
    requires
        input_channels == 3 || input_channels == 4,
        1 <= width,
        1 <= height,
        width * height * 4 <= usize::MAX,
    ensures
        match integrated_body_spec(body@, width as int, height as int, input_channels as int) {
            Ok(px) => r matches Ok(v) && v@ == px,
            Err(e) => r == Err::<Vec<u8>, ParseError>(e),
        },
{
    if body.len() < 4 {
        return Err(malformed("truncated integrated-image header"));
    }
    let encoding = read_array4(body, 0);
    let dpcm: [u8; 4] = [100, 112, 99, 109];
    assert(dpcm@ =~= dpcm_tag());
    if !(encoding[0] == dpcm[0] && encoding[1] == dpcm[1] && encoding[2] == dpcm[2] && encoding[3]
        == dpcm[3]) {
        assert(body@.subrange(0, 4) != dpcm_tag());
        assert(encoding =~= [body@[0], body@[1], body@[2], body@[3]]);
        return Err(ParseError::UnsupportedIntegratedImage { found: encoding });
    }
    assert(body@.subrange(0, 4) =~= dpcm_tag());
    let tiles_x = width / TILE_SIZE + if width % TILE_SIZE != 0 {
        1
    } else {
        0
    };
    let tiles_y = height / TILE_SIZE + if height % TILE_SIZE != 0 {
        1
    } else {
        0
    };
    if tiles_x > 255 {
        return Err(malformed("tile row has more than 255 columns"));
    }
    let tile_count = match tiles_x.checked_mul(tiles_y) {
        Some(v) => v,
        None => {
            return Err(malformed("tile count overflow"));
        },
    };
    let table_len = match tile_count.checked_mul(4) {
        Some(v) => v,
        None => {
            return Err(malformed("tile-size table overflow"));
        },
    };
    let table_end = match 4usize.checked_add(table_len) {
        Some(v) => v,
        None => {
            return Err(malformed("tile-size table overflow"));
        },
    };
    if body.len() < table_end {
        return Err(malformed("truncated tile-size table"));
    }
    let ghost sizes = tile_sizes(body@, tile_count as int);
    let mut tile_sizes_vec: Vec<usize> = Vec::with_capacity(tile_count);
    let mut index: usize = 0;
    while index < tile_count
        invariant
            index <= tile_count,
            table_end == 4 + 4 * tile_count,
            body@.len() >= table_end,
            sizes == tile_sizes(body@, tile_count as int),
            tile_sizes_vec@.len() == index,
            forall|j: int| 0 <= j < index ==> tile_sizes_vec@[j] as int == sizes[j],
        decreases tile_count - index,
    {
        let offset = 4 + index * 4;
        tile_sizes_vec.push(read_u32_le(body, offset) as usize);
        index = index + 1;
    }
    assert(Seq::new(tile_sizes_vec@.len(), |i: int| tile_sizes_vec@[i] as int) =~= sizes);
    let (pos, pixels) = match decode_tiles(
        body,
        &tile_sizes_vec,
        table_end,
        tiles_x,
        tiles_y,
        width,
        height,
        input_channels,
    ) {
        Ok(v) => v,
        Err(e) => {
            return Err(e);
        },
    };
    match check_padding(body, pos) {
        Ok(()) => {},
        Err(e) => {
            return Err(e);
        },
    }
    Ok(pixels)
}

/// The body of the first `intg` chunk of a parsed document.
#[verifier::spinoff_prover]
fn find_integrated_body<'a>(input: &'a [u8], chunks: &[Chunk]) -> (r: Option<&'a [u8]>)
    requires
        table_valid(input@, le_u32(input@, 32)),
        chunks@.len() == le_u32(input@, 32),
        forall|i: int|
            0 <= i < le_u32(input@, 32) ==> #[trigger] chunks@[i].parsed_from(input@, le_u32(input@, 32), i),
    ensures
        match find_first_kind(input@, le_u32(input@, 32), intg_tag(), 0) {
            None => r is None,
            Some(k) => r matches Some(b) && b@ == chunk_body_spec(input@, le_u32(input@, 32), k),
        },
{
    let ghost s = input@;
    let ghost count = le_u32(s, 32);
    let intg: [u8; 4] = [105, 110, 116, 103];
    assert(intg@ =~= intg_tag());
    let k = match first_chunk_of_kind(chunks, intg) {
        Some(k) => k,
        None => {
            proof {
                assert forall|j: int| 0 <= j < count implies kind_at(s, j) != intg_tag() by {
                    assert(chunks@[j].parsed_from(s, count, j));
                }
                lemma_find_first_kind_none(s, count, intg_tag(), 0);
            }
            return None;
        },
    };
    proof {
        assert forall|j: int| 0 <= j < k implies kind_at(s, j) != intg_tag() by {
            assert(chunks@[j].parsed_from(s, count, j));
        }
        assert(chunks@[k as int].parsed_from(s, count, k as int));
        lemma_find_first_kind_some(s, count, intg_tag(), 0, k as int);
        assert(entry_ok(s, count, k as int));
        if k + 1 < count {
            assert(entry_ok(s, count, k + 1));
        }
    }
    let input_len = input.len();
    let chunk = &chunks[k];
    assert(chunk.offset() + chunk.size() <= input_len);
    let chunk_start = chunk.offset() as usize;
    let chunk_end_pos = chunk_start + chunk.size();
    let body = slice_subrange(input, chunk_start, chunk_end_pos);
    assert(body@ =~= chunk_body_spec(s, count, k as int));
    Some(body)
}

/// Decodes the merged image stored in the first `intg` chunk.
#[verifier::spinoff_prover]
#[verifier::rlimit(40)]
pub fn decode_integrated_image(input: &[u8], limits: DecodeLimits) -> (r: Result<RgbaImage, ParseError>)
    ensures
        !document_valid(input@) ==> (r matches Err(e) && document_outcome(input@, Err(e))),
        document_valid(input@) ==> match integrated_spec(input@, limits.max_pixels) {
            Ok(px) => r matches Ok(img) && img.width() as int == le_u32(input@, 20) && img.height() as int
                == le_u32(input@, 24) && img.pixel_data() == px,
            Err(e) => r == Err::<RgbaImage, ParseError>(e),
        },
{
    let ghost s = input@;
    let document = match Sai2Document::parse(input) {
        Ok(d) => d,
        Err(e) => {
            return Err(e);
        },
    };
    proof {
        lemma_document_chunks(s, document);
    }
    let header = document.header();
    let width = header.width() as usize;
    let height = header.height() as usize;
    if width == 0 || height == 0 {
        return Err(invalid_dimensions(header));
    }
    proof {
        let wi = header.width() as int;
        let hi = header.height() as int;
        assert(wi * hi <= 0xffff_ffff * 0xffff_ffffint) by (nonlinear_arith)
            requires
                0 <= wi <= 0xffff_ffff,
                0 <= hi <= 0xffff_ffff,
        ;
    }
    let pixel_count = match (header.width() as u64).checked_mul(header.height() as u64) {
        Some(v) => v,
        None => {
            return Err(invalid_dimensions(header));
        },
    };
    if pixel_count > limits.max_pixels {
        return Err(ParseError::ImageTooLarge { pixels: pixel_count, max_pixels: limits.max_pixels });
    }
    if pixel_count > usize::MAX as u64 {
        return Err(invalid_dimensions(header));
    }
    let output_len = match (pixel_count as usize).checked_mul(OUTPUT_CHANNELS) {
        Some(v) => v,
        None => {
            return Err(invalid_dimensions(header));
        },
    };
    let body = match find_integrated_body(input, document.chunks()) {
        Some(b) => b,
        None => {
            return Err(ParseError::MissingIntegratedImage);
        },
    };
    let input_channels: usize = if header.integrated_image_has_alpha() {
        4
    } else {
        3
    };
    let pixels = match decode_integrated_body(body, width, height, input_channels) {
        Ok(p) => p,
        Err(e) => {
            return Err(e);
        },
    };
    Ok(RgbaImage::from_pixels(header.width(), header.height(), pixels))
}

proof fn lemma_blit_rows_len(pixels: Seq<u8>, rows: Seq<Seq<u8>>, tile_x: int, tile_y: int, width: int, w: int)
    ensures
        blit_rows(pixels, rows, tile_x, tile_y, width, w).len() == pixels.len(),
    decreases rows.len(),
{
    if rows.len() > 0 {
        lemma_blit_rows_len(pixels, rows.drop_last(), tile_x, tile_y, width, w);
    }
}

proof fn lemma_band_run_len(
    body: Seq<u8>,
    sizes: Seq<int>,
    pos: int,
    tile_y: int,
    tile_x: int,
    tiles_x: int,
    tiles_y: int,
    width: int,
    height: int,
    in_ch: int,
    pixels: Seq<u8>,
)
    ensures
        band_run(body, sizes, pos, tile_y, tile_x, tiles_x, tiles_y, width, height, in_ch, pixels)
            matches Ok((_, px)) ==> px.len() == pixels.len(),
    decreases tiles_y - tile_y, tiles_x - tile_x,
{
    if tile_y >= tiles_y {
    } else if tile_x >= tiles_x {
        if pos + 2 <= usize::MAX && pos + 2 <= body.len() && marker_error(le_u16(body, pos), tiles_x)
            is None {
            lemma_band_run_len(
                body,
                sizes,
                pos + 2,
                tile_y + 1,
                0,
                tiles_x,
                tiles_y,
                width,
                height,
                in_ch,
                pixels,
            );
        }
    } else {
        let size = sizes[tile_y * tiles_x + tile_x];
        if pos + size <= usize::MAX && pos + size <= body.len() {
            let tw = tile_extent(width, tile_x);
            match decode_tile(
                body.subrange(pos, pos + size),
                tile_x,
                tw,
                tile_extent(height, tile_y),
                in_ch,
            ) {
                Err(e) => {},
                Ok(rows) => {
                    let next = blit_rows(pixels, rows, tile_x, tile_y, width, tw);
                    lemma_blit_rows_len(pixels, rows, tile_x, tile_y, width, tw);
                    lemma_band_run_len(
                        body,
                        sizes,
                        pos + size,
                        tile_y,
                        tile_x + 1,
                        tiles_x,
                        tiles_y,
                        width,
                        height,
                        in_ch,
                        next,
                    );
                },
            }
        }
    }
}

/// A decoded merged image holds exactly four bytes (R, G, B, A) for each
/// pixel of the canvas.
pub proof fn lemma_integrated_image_len(s: Seq<u8>, max_pixels: u64)
    ensures
        integrated_spec(s, max_pixels) matches Ok(px) ==> px.len() == le_u32(s, 20) * le_u32(s, 24)
            * 4,
{
    let w = le_u32(s, 20);
    let h = le_u32(s, 24);
    let count = le_u32(s, 32);
    if !(w == 0 || h == 0) && !(w * h > max_pixels) && !(w * h * 4 > usize::MAX) {
        if let Some(k) = find_first_kind(s, count, intg_tag(), 0) {
            let body = chunk_body_spec(s, count, k);
            let tx = tiles_for(w);
            let ty = tiles_for(h);
            assert(w * h * 4 >= 0) by (nonlinear_arith)
                requires
                    w >= 0,
                    h >= 0,
            ;
            lemma_band_run_len(
                body,
                tile_sizes(body, tx * ty),
                4 + 4 * (tx * ty),
                0,
                0,
                tx,
                ty,
                w,
                h,
                integrated_channels(le_u32(s, 16)),
                zero_bytes(w * h * 4),
            );
        }
    }
}


/// Every pixel of a BGRA or RGBA row of `w` pixels has alpha 255.
pub open spec fn opaque_row(row: Seq<u8>, w: int) -> bool {
    &&& row.len() == w * 4
    &&& forall|j: int| 0 <= j < w ==> #[trigger] row[j * 4 + 3] == 255
}

proof fn lemma_recon_row_opaque(deltas: Seq<i16>, prev: Seq<u8>, w: int)
    requires
        0 <= w,
    ensures
        opaque_row(recon_row(deltas, prev, w, 3), w),
{
    let r = recon_row(deltas, prev, w, 3);
    assert forall|j: int| 0 <= j < w implies #[trigger] r[j * 4 + 3] == 255 by {
        lemma_div_mod4(j, 3);
    }
}

proof fn lemma_tile_rows_opaque(
    data: Seq<u8>,
    prev: Seq<u8>,
    row: int,
    tile_h: int,
    tile_w: int,
    rows: Seq<Seq<u8>>,
)
    requires
        0 <= row <= tile_h,
        0 <= tile_w,
        rows.len() == row,
        forall|k: int| 0 <= k < rows.len() ==> opaque_row(#[trigger] rows[k], tile_w),
    ensures
        tile_rows_run(data, prev, row, tile_h, tile_w, 3, rows) matches Ok((_, out)) ==> out.len()
            == tile_h && forall|k: int| 0 <= k < out.len() ==> opaque_row(#[trigger] out[k], tile_w),
    decreases tile_h - row,
{
    if row < tile_h {
        if let Ok((n, d)) = delta_row_outcome(data, zero_deltas(tile_w * 4), tile_w, 3, 4) {
            if n <= data.len() {
                let cur = recon_row(d, prev, tile_w, 3);
                lemma_recon_row_opaque(d, prev, tile_w);
                let next = rows.push(cur);
                assert forall|k: int| 0 <= k < next.len() implies opaque_row(#[trigger] next[k], tile_w) by {
                    if k < rows.len() {
                        assert(next[k] == rows[k]);
                    }
                }
                lemma_tile_rows_opaque(
                    data.subrange(n, data.len() as int),
                    cur,
                    row + 1,
                    tile_h,
                    tile_w,
                    next,
                );
            }
        }
    }
}

/// Whether the alpha byte of every pixel above row `tile_y * 256`, and of
/// every pixel left of column `tile_x * 256` in the band of tile row
/// `tile_y`, is 255.
pub open spec fn opaque_upto(px: Seq<u8>, width: int, height: int, tile_y: int, tile_x: int) -> bool {
    forall|x: int, y: int|
        0 <= x < width && 0 <= y < height && (y < tile_y * 256 || (y < tile_y * 256 + 256 && x
            < tile_x * 256)) ==> #[trigger] px[(y * width + x) * 4 + 3] == 255
}


proof fn lemma_write_row_alpha(pixels: Seq<u8>, row: Seq<u8>, base: int, w: int)
    requires
        base % 4 == 0,
        0 <= w,
        opaque_row(row, w),
    ensures
        write_row_spec(pixels, row, base, w).len() == pixels.len(),
        forall|i: int|
            0 <= i < pixels.len() && i % 4 == 3 && pixels[i] == 255 ==> #[trigger] write_row_spec(
                pixels,
                row,
                base,
                w,
            )[i] == 255,
        forall|j: int|
            0 <= j < w && 0 <= base + j * 4 + 3 < pixels.len() ==> #[trigger] write_row_spec(
                pixels,
                row,
                base,
                w,
            )[base + j * 4 + 3] == 255,
{
    let out = write_row_spec(pixels, row, base, w);
    assert forall|i: int|
        0 <= i < pixels.len() && i % 4 == 3 && pixels[i] == 255 implies #[trigger] out[i] == 255 by {
        if base <= i < base + 4 * w {
            let k = i - base;
            assert(k % 4 == 3);
            assert(k - k % 4 + bgra_source(k % 4) == (k / 4) * 4 + 3);
            assert(row[(k / 4) * 4 + 3] == 255);
        }
    }
    assert forall|j: int| 0 <= j < w && 0 <= base + j * 4 + 3 < pixels.len() implies #[trigger] out[base
        + j * 4 + 3] == 255 by {
        let k = j * 4 + 3;
        assert(k % 4 == 3 && k / 4 == j);
        assert(row[j * 4 + 3] == 255);
    }
}

proof fn lemma_blit_rows_alpha(pixels: Seq<u8>, rows: Seq<Seq<u8>>, tile_x: int, tile_y: int, width: int, w: int)
    requires
        0 <= w,
        forall|k: int| 0 <= k < rows.len() ==> opaque_row(#[trigger] rows[k], w),
    ensures
        blit_rows(pixels, rows, tile_x, tile_y, width, w).len() == pixels.len(),
        forall|i: int|
            0 <= i < pixels.len() && i % 4 == 3 && pixels[i] == 255 ==> #[trigger] blit_rows(
                pixels,
                rows,
                tile_x,
                tile_y,
                width,
                w,
            )[i] == 255,
        forall|r: int, j: int|
            0 <= r < rows.len() && 0 <= j < w && 0 <= pixel_base(tile_x * 256, tile_y * 256 + r, width)
                + j * 4 + 3 < pixels.len() ==> #[trigger] blit_rows(
                pixels,
                rows,
                tile_x,
                tile_y,
                width,
                w,
            )[pixel_base(tile_x * 256, tile_y * 256 + r, width) + j * 4 + 3] == 255,
    decreases rows.len(),
{
    if rows.len() > 0 {
        let init = rows.drop_last();
        assert forall|k: int| 0 <= k < init.len() implies opaque_row(#[trigger] init[k], w) by {
            assert(init[k] == rows[k]);
        }
        lemma_blit_rows_alpha(pixels, init, tile_x, tile_y, width, w);
        let inner = blit_rows(pixels, init, tile_x, tile_y, width, w);
        let n = rows.len() - 1;
        let base = pixel_base(tile_x * 256, tile_y * 256 + n, width);
        assert(opaque_row(rows[n], w));
        lemma_write_row_alpha(inner, rows.last(), base, w);
        let out = blit_rows(pixels, rows, tile_x, tile_y, width, w);
        assert forall|r: int, j: int|
            0 <= r < rows.len() && 0 <= j < w && 0 <= pixel_base(tile_x * 256, tile_y * 256 + r, width)
                + j * 4 + 3 < pixels.len() implies #[trigger] out[pixel_base(
            tile_x * 256,
            tile_y * 256 + r,
            width,
        ) + j * 4 + 3] == 255 by {
            let idx = pixel_base(tile_x * 256, tile_y * 256 + r, width) + j * 4 + 3;
            assert(idx % 4 == 3);
            if r < n {
                assert(inner[idx] == 255);
            }
        }
    }
}


proof fn lemma_decode_tile_opaque(tile: Seq<u8>, tile_x: int, tile_w: int, tile_h: int)
    requires
        0 <= tile_w,
        0 <= tile_h,
    ensures
        decode_tile(tile, tile_x, tile_w, tile_h, 3) matches Ok(rows) ==> rows.len() == tile_h
            && forall|k: int| 0 <= k < rows.len() ==> opaque_row(#[trigger] rows[k], tile_w),
{
    if tile.len() >= 2 {
        lemma_tile_rows_opaque(
            tile.subrange(2, tile.len() as int),
            zero_bytes(tile_w * 4),
            0,
            tile_h,
            tile_w,
            Seq::empty(),
        );
    }
}

proof fn lemma_pixel_in_image(x: int, y: int, width: int, height: int)
    requires
        0 <= x < width,
        0 <= y < height,
    ensures
        0 <= (y * width + x) * 4 + 3 < width * height * 4,
{
    assert(0 <= y * width) by (nonlinear_arith)
        requires
            0 <= y,
            0 <= width,
    ;
    assert(y * width + x < width * height) by (nonlinear_arith)
        requires
            0 <= x < width,
            0 <= y < height,
    ;
}

proof fn lemma_band_run_opaque(
    body: Seq<u8>,
    sizes: Seq<int>,
    pos: int,
    tile_y: int,
    tile_x: int,
    tiles_x: int,
    tiles_y: int,
    width: int,
    height: int,
    pixels: Seq<u8>,
)
    requires
        1 <= width,
        1 <= height,
        tiles_x == tiles_for(width),
        tiles_y == tiles_for(height),
        0 <= tile_x <= tiles_x,
        0 <= tile_y <= tiles_y,
        pixels.len() == width * height * 4,
        opaque_upto(pixels, width, height, tile_y, tile_x),
    ensures
        band_run(body, sizes, pos, tile_y, tile_x, tiles_x, tiles_y, width, height, 3, pixels)
            matches Ok((_, px)) ==> opaque_upto(px, width, height, tiles_y, 0),
    decreases tiles_y - tile_y, tiles_x - tile_x,
{
    if tile_y >= tiles_y {
        assert(opaque_upto(pixels, width, height, tiles_y, 0));
    } else if tile_x >= tiles_x {
        if pos + 2 <= usize::MAX && pos + 2 <= body.len() && marker_error(le_u16(body, pos), tiles_x)
            is None {
            assert(tiles_x * 256 >= width);
            assert forall|x: int, y: int|
                0 <= x < width && 0 <= y < height && (y < (tile_y + 1) * 256 || (y < (tile_y + 1)
                    * 256 + 256 && x < 0)) implies #[trigger] pixels[(y * width + x) * 4 + 3]
                == 255 by {
                assert(y < tile_y * 256 || (y < tile_y * 256 + 256 && x < tile_x * 256));
            }
            lemma_band_run_opaque(
                body,
                sizes,
                pos + 2,
                tile_y + 1,
                0,
                tiles_x,
                tiles_y,
                width,
                height,
                pixels,
            );
        }
    } else {
        let size = sizes[tile_y * tiles_x + tile_x];
        if pos + size <= usize::MAX && pos + size <= body.len() {
            let tw = tile_extent(width, tile_x);
            let th = tile_extent(height, tile_y);
            assert(tile_x * 256 < width);
            assert(tile_y * 256 < height);
            lemma_decode_tile_opaque(body.subrange(pos, pos + size), tile_x, tw, th);
            match decode_tile(body.subrange(pos, pos + size), tile_x, tw, th, 3) {
                Err(e) => {},
                Ok(rows) => {
                    lemma_blit_rows_alpha(pixels, rows, tile_x, tile_y, width, tw);
                    let next = blit_rows(pixels, rows, tile_x, tile_y, width, tw);
                    assert forall|x: int, y: int|
                        0 <= x < width && 0 <= y < height && (y < tile_y * 256 || (y < tile_y
                            * 256 + 256 && x < (tile_x + 1) * 256)) implies #[trigger] next[(y
                        * width + x) * 4 + 3] == 255 by {
                        lemma_pixel_in_image(x, y, width, height);
                        let idx = (y * width + x) * 4 + 3;
                        if y < tile_y * 256 || x < tile_x * 256 {
                            assert(pixels[idx] == 255);
                            assert(idx % 4 == 3);
                        } else {
                            let r = y - tile_y * 256;
                            let j = x - tile_x * 256;
                            assert(pixel_base(tile_x * 256, tile_y * 256 + r, width) + j * 4 + 3
                                == idx);
                            assert(0 <= r < rows.len());
                            assert(0 <= j < tw);
                        }
                    }
                    lemma_band_run_opaque(
                        body,
                        sizes,
                        pos + size,
                        tile_y,
                        tile_x + 1,
                        tiles_x,
                        tiles_y,
                        width,
                        height,
                        next,
                    );
                },
            }
        }
    }
}

/// In the three-channel (opaque canvas) mode every pixel of the decoded
/// merged image is fully opaque.
pub proof fn lemma_integrated_image_opaque(s: Seq<u8>, max_pixels: u64)
    requires
        integrated_channels(le_u32(s, 16)) == 3,
    ensures
        integrated_spec(s, max_pixels) matches Ok(px) ==> forall|x: int, y: int|
            0 <= x < le_u32(s, 20) && 0 <= y < le_u32(s, 24) ==> #[trigger] px[(y * le_u32(s, 20) + x)
                * 4 + 3] == 255,
{
    let w = le_u32(s, 20);
    let h = le_u32(s, 24);
    let count = le_u32(s, 32);
    if !(w == 0 || h == 0) && !(w * h > max_pixels) && !(w * h * 4 > usize::MAX) {
        if let Some(k) = find_first_kind(s, count, intg_tag(), 0) {
            let body = chunk_body_spec(s, count, k);
            let tx = tiles_for(w);
            let ty = tiles_for(h);
            assert(w * h * 4 >= 0) by (nonlinear_arith)
                requires
                    w >= 0,
                    h >= 0,
            ;
            let start = zero_bytes(w * h * 4);
            assert(opaque_upto(start, w, h, 0, 0));
            lemma_band_run_opaque(body, tile_sizes(body, tx * ty), 4 + 4 * (tx * ty), 0, 0, tx, ty, w, h, start);
            if let Ok(px) = integrated_spec(s, max_pixels) {
                assert forall|x: int, y: int| 0 <= x < w && 0 <= y < h implies #[trigger] px[(y * w
                    + x) * 4 + 3] == 255 by {
                    assert(ty * 256 >= h);
                }
            }
        }
    }
}


} // verus!
