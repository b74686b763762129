//! Layer descriptors (`layr`) and raster layer pixels (`lpix`).

use vstd::prelude::*;
use vstd::slice::slice_subrange;

use crate::bytes::{le_i32, le_u16, le_u32, lemma_le_bounds, read_array4, read_i32_le, read_u16_le, read_u32_le};
use crate::dpcm::{decode_delta_row, delta_row_outcome};
use crate::error::ParseError;
use crate::document::{
    chunk_body_spec, chunks_describe, document_outcome, document_valid, find_kind_id, ids_upto,
    kind_at, lemma_chunk_within, lemma_document_chunks, lemma_find_kind_id_none,
    lemma_find_kind_id_some, object_id_at, first_chunk_with, Sai2Document,
};
use crate::image::{zero_deltas, DecodeLimits, RgbaImage};
use crate::chunk::Chunk;
use crate::header::FourCc;
use crate::text::{append_decimal, char_from_u32, decimal, push_char};

verus! {

/// Side length of a raster-layer block.
pub const BLOCK_SIZE: usize = 32;

/// Full intensity of a 14-bit channel value.
pub const CHANNEL_MAX: i32 = 0x4000;

/// `v` limited to `lo..=hi`.
pub open spec fn clamp(v: int, lo: int, hi: int) -> int {
    if v < lo {
        lo
    } else if v > hi {
        hi
    } else {
        v
    }
}

/// A premultiplied 14-bit channel value divided by its alpha and scaled to
/// eight bits, rounding to nearest; zero where alpha is not positive.
pub open spec fn unpremultiply_spec(value: int, alpha: int) -> int {
    if alpha <= 0 {
        0
    } else {
        clamp((value * 255 + alpha / 2) / alpha, 0, 255)
    }
}

/// A 14-bit value (full intensity 0x4000) scaled to eight bits, rounding to
/// nearest.
pub open spec fn scale_14_to_8_spec(value: int) -> int {
    clamp((clamp(value, 0, 0x4000) * 255 + 0x2000) / 0x4000, 0, 255)
}

/// Converts a premultiplied 14-bit channel to straight eight-bit alpha.
pub fn unpremultiply(value: i32, alpha: i32) -> (r: u8)
    requires
        0 <= value <= 0xffff,
        alpha <= 0xffff,
    ensures
        r as int == unpremultiply_spec(value as int, alpha as int),
{
    if alpha <= 0 {
        return 0;
    }
    let v = value as u32;
    let a = alpha as u32;
    let straight = (v * 255 + a / 2) / a;
    if straight > 255 {
        255
    } else {
        straight as u8
    }
}

/// Scales a 14-bit channel to eight bits.
pub fn scale_14_to_8(value: i32) -> (r: u8)
    ensures
        r as int == scale_14_to_8_spec(value as int),
{
    let clamped: u32 = if value < 0 {
        0
    } else if value > CHANNEL_MAX {
        CHANNEL_MAX as u32
    } else {
        value as u32
    };
    let scaled = (clamped * 255 + 0x2000) / 0x4000;
    if scaled > 255 {
        255
    } else {
        scaled as u8
    }
}

/// Whether the 32 x 32 block at block coordinates (`block_x`, `block_y`)
/// overlaps a canvas of `width` x `height` pixels.
pub open spec fn intersects_spec(block_x: int, block_y: int, width: int, height: int) -> bool {
    let left = block_x * 32;
    let top = block_y * 32;
    left + 32 > 0 && top + 32 > 0 && left < width && top < height
}

pub fn block_intersects_canvas(block_x: i64, block_y: i64, width: u32, height: u32) -> (r: bool)
    requires
        -0x1_0000_0000_0000 <= block_x <= 0x1_0000_0000_0000,
        -0x1_0000_0000_0000 <= block_y <= 0x1_0000_0000_0000,
    ensures
        r == intersects_spec(block_x as int, block_y as int, width as int, height as int),
{
    let left = block_x * 32;
    let top = block_y * 32;
    let right = left + 32;
    let bottom = top + 32;
    right > 0 && bottom > 0 && left < width as i64 && top < height as i64
}

/// The restored value of channel `c` at (`x`, `y`) of a 32 x 32 block whose
/// deltas are `d` (four per pixel): the left + above - upper-left prediction
/// and the delta, each step clamped to `0..=0x4000`.
pub open spec fn block_value(d: Seq<i16>, c: int, y: int, x: int) -> int
    decreases y * 32 + x,
{
    if y < 0 || x < 0 || x >= 32 {
        0
    } else {
        let above = if y == 0 {
            0
        } else {
            block_value(d, c, y - 1, x)
        };
        let left = if x == 0 {
            0
        } else {
            block_value(d, c, y, x - 1)
        };
        let upper_left = if x == 0 || y == 0 {
            0
        } else {
            block_value(d, c, y - 1, x - 1)
        };
        let predicted = clamp(left + above - upper_left, 0, 0x4000);
        clamp(predicted + d[(y * 32 + x) * 4 + c] as int, 0, 0x4000)
    }
}

/// The restored block: value `i` is channel `i % 4` of pixel `i / 4`.
pub open spec fn block_values(d: Seq<i16>) -> Seq<i32> {
    Seq::new(4096, |i: int| block_value(d, i % 4, (i / 4) / 32, (i / 4) % 32) as i32)
}

/// The outcome of decoding a compressed 32 x 32 four-channel block.
pub open spec fn dpcm_block_spec(compressed: Seq<u8>) -> Result<Seq<i32>, ParseError> {
    match delta_row_outcome(compressed, zero_deltas(4096), 1024, 4, 4) {
        Err((e, _)) => Err(ParseError::MalformedDpcm { reason: e }),
        Ok((n, d)) => if n != compressed.len() {
            Err(ParseError::MalformedLayer { reason: "lpix block has unused compressed bytes" })
        } else {
            Ok(block_values(d))
        },
    }
}

proof fn lemma_block_value_range(d: Seq<i16>, c: int, y: int, x: int)
    ensures
        0 <= block_value(d, c, y, x) <= 0x4000,
{
}

proof fn lemma_block_index(y: int, x: int, c: int)
    requires
        0 <= y < 32,
        0 <= x < 32,
        0 <= c < 4,
    ensures
        ((y * 32 + x) * 4 + c) % 4 == c,
        (((y * 32 + x) * 4 + c) / 4) / 32 == y,
        (((y * 32 + x) * 4 + c) / 4) % 32 == x,
        0 <= (y * 32 + x) * 4 + c < 4096,
{
}

/// Decodes one compressed 32 x 32 block of premultiplied 14-bit BGRA.
pub fn decode_dpcm_block(compressed: &[u8]) -> (r: Result<Vec<i32>, ParseError>)
    ensures
        match dpcm_block_spec(compressed@) {
            Ok(v) => r matches Ok(w) && w@ == v,
            Err(e) => r == Err::<Vec<i32>, ParseError>(e),
        },
{
    let mut deltas: Vec<i16> = vec![0i16; 4096];
    assert(deltas@ =~= zero_deltas(4096));
    let consumed = match decode_delta_row(compressed, &mut deltas, 1024, 4, 4) {
        Ok(n) => n,
        Err(e) => {
            return Err(e);
        },
    };
    if consumed != compressed.len() {
        return Err(ParseError::MalformedLayer { reason: "lpix block has unused compressed bytes" });
    }
    let ghost d = deltas@;
    let mut values: Vec<i32> = Vec::with_capacity(4096);
    let mut y: usize = 0;
    while y < BLOCK_SIZE
        invariant
            d == deltas@,
            d.len() == 4096,
            y <= 32,
            values@.len() == y * 128,
            forall|i: int| 0 <= i < y * 128 ==> values@[i] as int == block_value(d, i % 4, (i / 4) / 32, (i / 4) % 32),
        decreases 32 - y,
    {
        let mut left: [i32; 4] = [0; 4];
        let mut upper_left: [i32; 4] = [0; 4];
        let mut x: usize = 0;
        while x < BLOCK_SIZE
            invariant
                d == deltas@,
                d.len() == 4096,
                y < 32,
                x <= 32,
                values@.len() == y * 128 + x * 4,
                forall|i: int| 0 <= i < y * 128 + x * 4 ==> values@[i] as int == block_value(d, i % 4, (i / 4) / 32, (i / 4) % 32),
                forall|c: int| 0 <= c < 4 ==> left@[c] as int == (if x == 0 { 0 } else { block_value(d, c, y as int, x - 1) }),
                forall|c: int| 0 <= c < 4 ==> upper_left@[c] as int == (if x == 0 || y == 0 { 0 } else { block_value(d, c, y - 1, x - 1) }),
            decreases 32 - x,
        {
            let index = y * BLOCK_SIZE + x;
            let ghost before = values@;
            let mut c: usize = 0;
            while c < 4
                invariant
                    d == deltas@,
                    d.len() == 4096,
                    y < 32,
                    x < 32,
                    c <= 4,
                    index == y * 32 + x,
                    values@.len() == index * 4 + c,
                    forall|i: int| 0 <= i < index * 4 ==> values@[i] == before[i],
                    before.len() == index * 4,
                    forall|k: int| 0 <= k < c ==> values@[index * 4 + k] as int == block_value(d, k, y as int, x as int),
                    forall|k: int| 0 <= k < c ==> left@[k] as int == block_value(d, k, y as int, x as int),
                    forall|k: int| c <= k < 4 ==> left@[k] as int == (if x == 0 { 0 } else { block_value(d, k, y as int, x - 1) }),
                    forall|k: int| 0 <= k < c ==> upper_left@[k] as int == (if y == 0 { 0 } else { block_value(d, k, y - 1, x as int) }),
                    forall|k: int| c <= k < 4 ==> upper_left@[k] as int == (if x == 0 || y == 0 { 0 } else { block_value(d, k, y - 1, x - 1) }),
                    forall|i: int| 0 <= i < index * 4 ==> before[i] as int == block_value(d, i % 4, (i / 4) / 32, (i / 4) % 32),
                decreases 4 - c,
            {
                let above: i32 = if y == 0 {
                    0
                } else {
                    proof {
                        lemma_block_index(y - 1, x as int, c as int);
                    }
                    let v = values[(index - BLOCK_SIZE) * 4 + c];
                    proof {
                        lemma_block_value_range(d, c as int, y - 1, x as int);
                        let i = (index - 32) * 4 + c;
                        assert(i == ((y - 1) * 32 + x) * 4 + c);
                        assert(values@[i] == before[i]);
                        assert(before[i] as int == block_value(d, i % 4, (i / 4) / 32, (i / 4) % 32));
                        assert(v as int == block_value(d, c as int, y - 1, x as int));
                    }
                    v
                };
                proof {
                    lemma_block_value_range(d, c as int, y - 1, x as int);
                    lemma_block_value_range(d, c as int, y as int, x - 1);
                    lemma_block_value_range(d, c as int, y - 1, x - 1);
                    assert(0 <= left@[c as int] <= 0x4000);
                    assert(0 <= upper_left@[c as int] <= 0x4000);
                    assert(0 <= above <= 0x4000);
                }
                let sum = left[c] + above - upper_left[c];
                let predicted = if sum < 0 { 0 } else if sum > CHANNEL_MAX { CHANNEL_MAX } else { sum };
                let raw = predicted + deltas[index * 4 + c] as i32;
                let value = if raw < 0 { 0 } else if raw > CHANNEL_MAX { CHANNEL_MAX } else { raw };
                values.push(value);
                left[c] = value;
                upper_left[c] = above;
                c = c + 1;
            }
            proof {
                assert forall|i: int| 0 <= i < y * 128 + (x + 1) * 4 implies values@[i] as int == block_value(d, i % 4, (i / 4) / 32, (i / 4) % 32) by {
                    if i >= index * 4 {
                        let k = i - index * 4;
                        lemma_block_index(y as int, x as int, k);
                        assert(values@[index * 4 + k] as int == block_value(d, k, y as int, x as int));
                    } else {
                        assert(values@[i] == before[i]);
                    }
                }
            }
            x = x + 1;
        }
        y = y + 1;
    }
    assert(values@ =~= block_values(d));
    Ok(values)
}

/// Output byte `c` (R, G, B, A) of block pixel `p`, whose premultiplied
/// 14-bit channels are stored B, G, R, A at `vals[p * 4..]`.
pub open spec fn pixel_byte(vals: Seq<i32>, p: int, c: int) -> u8 {
    let a = vals[p * 4 + 3] as int;
    if c == 3 {
        scale_14_to_8_spec(a) as u8
    } else {
        unpremultiply_spec(vals[p * 4 + 2 - c] as int, a) as u8
    }
}

pub open spec fn max_int(a: int, b: int) -> int {
    if a > b {
        a
    } else {
        b
    }
}

pub open spec fn min_int(a: int, b: int) -> int {
    if a < b {
        a
    } else {
        b
    }
}

/// `rgba` with the first `xn` pixels of row `y` of the block at block
/// coordinates (`bx`, `by`) written, as far as they fall on the canvas.
pub open spec fn write_block_row(
    rgba: Seq<u8>,
    vals: Seq<i32>,
    bx: int,
    by: int,
    w: int,
    h: int,
    y: int,
    xn: int,
) -> Seq<u8> {
    let cy = by * 32 + y;
    let x0 = max_int(bx * 32, 0);
    let x1 = min_int(bx * 32 + xn, w);
    if cy < 0 || cy >= h || x0 >= x1 {
        rgba
    } else {
        let start = (cy * w + x0) * 4;
        Seq::new(
            rgba.len(),
            |i: int|
                if start <= i < start + (x1 - x0) * 4 {
                    pixel_byte(vals, y * 32 + (x0 - bx * 32) + (i - start) / 4, (i - start) % 4)
                } else {
                    rgba[i]
                },
        )
    }
}

/// `rgba` with rows `0..n` of the block at block coordinates (`bx`, `by`)
/// written, cropped to the canvas.
pub open spec fn blit_rows_upto(
    rgba: Seq<u8>,
    vals: Seq<i32>,
    bx: int,
    by: int,
    w: int,
    h: int,
    n: int,
) -> Seq<u8>
    decreases n,
{
    if n <= 0 {
        rgba
    } else {
        write_block_row(blit_rows_upto(rgba, vals, bx, by, w, h, n - 1), vals, bx, by, w, h, n - 1, 32)
    }
}

/// `rgba` with the whole block at block coordinates (`bx`, `by`) written as
/// straight-alpha RGBA, cropped to the canvas.
pub open spec fn blit_spec(rgba: Seq<u8>, vals: Seq<i32>, bx: int, by: int, w: int, h: int) -> Seq<u8> {
    blit_rows_upto(rgba, vals, bx, by, w, h, 32)
}

proof fn lemma_canvas_index(cy: int, cx: int, w: int, h: int)
    requires
        0 <= cy < h,
        0 <= cx < w,
    ensures
        0 <= cy * w,
        (cy * w + cx) * 4 + 4 <= w * h * 4,
{
    assert(0 <= cy * w) by (nonlinear_arith)
        requires
            0 <= cy,
            0 <= w,
    ;
    assert(cy * w + w <= w * h) by (nonlinear_arith)
        requires
            0 <= cy < h,
            0 <= w,
    ;
}

/// Writes a 32 x 32 block of premultiplied 14-bit BGRA values at block
/// coordinates (`block_x`, `block_y`) into the straight-alpha RGBA canvas,
/// skipping pixels outside the canvas.
pub fn blit_block(
    values: &Vec<i32>,
    block_x: i64,
    block_y: i64,
    canvas_width: u32,
    canvas_height: u32,
    rgba: &mut Vec<u8>,
)
    requires
        values@.len() == 4096,
        forall|i: int| 0 <= i < 4096 ==> 0 <= #[trigger] values@[i] <= 0xffff,
        -0x1_0000_0000_0000 <= block_x <= 0x1_0000_0000_0000,
        -0x1_0000_0000_0000 <= block_y <= 0x1_0000_0000_0000,
        old(rgba)@.len() == canvas_width * canvas_height * 4,
    ensures
        final(rgba)@ == blit_spec(
            old(rgba)@,
            values@,
            block_x as int,
            block_y as int,
            canvas_width as int,
            canvas_height as int,
        ),
        final(rgba)@.len() == old(rgba)@.len(),
{
    let ghost vals = values@;
    let ghost w = canvas_width as int;
    let ghost h = canvas_height as int;
    let ghost bx = block_x as int;
    let ghost by = block_y as int;
    let ghost r0 = old(rgba)@;
    let total = rgba.len();
    let width = canvas_width as usize;
    let left = block_x * 32;
    let top = block_y * 32;
    let mut y: usize = 0;
    while y < BLOCK_SIZE
        invariant
            vals == values@,
            vals.len() == 4096,
            forall|i: int| 0 <= i < 4096 ==> 0 <= #[trigger] vals[i] <= 0xffff,
            w == canvas_width,
            h == canvas_height,
            width == w,
            bx == block_x,
            by == block_y,
            left == bx * 32,
            top == by * 32,
            -0x1_0000_0000_0000 <= block_x <= 0x1_0000_0000_0000,
            -0x1_0000_0000_0000 <= block_y <= 0x1_0000_0000_0000,
            r0 == old(rgba)@,
            r0.len() == w * h * 4,
            total == w * h * 4,
            rgba@.len() == total,
            y <= 32,
            rgba@ == blit_rows_upto(r0, vals, bx, by, w, h, y as int),
        decreases 32 - y,
    {
        let canvas_y = top + y as i64;
        let ghost row_start = rgba@;
        if canvas_y < 0 || canvas_y >= canvas_height as i64 {
            y = y + 1;
            continue;
        }
        let mut x: usize = 0;
        while x < BLOCK_SIZE
            invariant
                vals == values@,
                vals.len() == 4096,
                forall|i: int| 0 <= i < 4096 ==> 0 <= #[trigger] vals[i] <= 0xffff,
                w == canvas_width,
                h == canvas_height,
                width == w,
                bx == block_x,
                by == block_y,
                left == bx * 32,
                top == by * 32,
                -0x1_0000_0000_0000 <= block_x <= 0x1_0000_0000_0000,
                -0x1_0000_0000_0000 <= block_y <= 0x1_0000_0000_0000,
                r0.len() == w * h * 4,
                total == w * h * 4,
                rgba@.len() == total,
                row_start.len() == total,
                y < 32,
                canvas_y == top + y,
                0 <= canvas_y < h,
                row_start == blit_rows_upto(r0, vals, bx, by, w, h, y as int),
                x <= 32,
                rgba@ == write_block_row(row_start, vals, bx, by, w, h, y as int, x as int),
            decreases 32 - x,
        {
            let canvas_x = left + x as i64;
            if canvas_x < 0 || canvas_x >= canvas_width as i64 {
                proof {
                    assert(write_block_row(row_start, vals, bx, by, w, h, y as int, x + 1)
                        =~= write_block_row(row_start, vals, bx, by, w, h, y as int, x as int));
                }
                x = x + 1;
                continue;
            }
            proof {
                lemma_canvas_index(canvas_y as int, canvas_x as int, w, h);
            }
            let pixel = y * BLOCK_SIZE + x;
            let alpha = values[pixel * 4 + 3];
            let destination = (canvas_y as usize * width + canvas_x as usize) * 4;
            let ghost before = rgba@;
            let red = unpremultiply(values[pixel * 4 + 2], alpha);
            let green = unpremultiply(values[pixel * 4 + 1], alpha);
            let blue = unpremultiply(values[pixel * 4], alpha);
            let a8 = scale_14_to_8(alpha);
            rgba.set(destination, red);
            rgba.set(destination + 1, green);
            rgba.set(destination + 2, blue);
            rgba.set(destination + 3, a8);
            proof {
                let next = write_block_row(row_start, vals, bx, by, w, h, y as int, x + 1);
                let cy = canvas_y as int;
                let x0 = max_int(bx * 32, 0);
                let start = (cy * w + x0) * 4;
                assert forall|i: int| 0 <= i < rgba@.len() implies #[trigger] rgba@[i] == next[i] by {
                    if destination <= i < destination + 4 {
                        assert((i - start) / 4 == canvas_x - x0);
                        assert((i - start) % 4 == i - destination);
                    } else {
                        assert(rgba@[i] == before[i]);
                    }
                }
                assert(rgba@ =~= next);
            }
            x = x + 1;
        }
        y = y + 1;
    }
}

/// The error for a layer descriptor or layer pixel stream.
pub open spec fn layer_err(reason: &'static str) -> ParseError {
    ParseError::MalformedLayer { reason }
}

fn layer_error(reason: &'static str) -> (r: ParseError)
    ensures
        r == layer_err(reason),
{
    ParseError::MalformedLayer { reason }
}

/// Reads a little-endian `u16` of layer data at `offset`.
fn read16(input: &[u8], offset: usize) -> (r: Result<u16, ParseError>)
    ensures
        offset + 2 <= input@.len() ==> r == Ok::<u16, ParseError>(le_u16(input@, offset as int) as u16),
        offset + 2 > input@.len() ==> r == Err::<u16, ParseError>(layer_err("truncated layer data")),
{
    if offset > input.len() || input.len() - offset < 2 {
        return Err(layer_error("truncated layer data"));
    }
    Ok(read_u16_le(input, offset))
}

/// A solid block: every pixel has the channel values `color` (B, G, R, A).
pub open spec fn solid_values(color: Seq<int>) -> Seq<i32> {
    Seq::new(4096, |i: int| color[i % 4] as i32)
}

/// The result of decoding one record of a block row.
pub ghost enum RowStep {
    /// Continue at this byte offset and block column with these pixels.
    Next(int, int, Seq<u8>),
    /// The row's terminator was reached with these pixels.
    Done(Seq<u8>),
    /// The record is malformed.
    Fail(ParseError),
}

/// Decodes the record at byte `offset` of a block-row stream (at least two
/// bytes remain), at block column `block_x`, for the block row at block Y
/// coordinate `by`. Blocks are placed at block X coordinate `ox + block_x`
/// and cropped to the `w` x `h` canvas.
pub open spec fn row_step(
    stream: Seq<u8>,
    offset: int,
    block_x: int,
    ox: int,
    by: int,
    blocks: int,
    w: int,
    h: int,
    rgba: Seq<u8>,
) -> RowStep {
    let marker = le_u16(stream, offset);
    let o = offset + 2;
    let kind = marker / 4096;
    let ax = ox + block_x;
    if marker % 256 != 255 {
        RowStep::Fail(layer_err("invalid lpix block marker"))
    } else if (marker / 256) % 16 != ax % 16 {
        RowStep::Fail(layer_err("unexpected lpix block X checksum"))
    } else if kind == 0 {
        if o + 2 > stream.len() {
            RowStep::Fail(layer_err("truncated layer data"))
        } else if block_x + le_u16(stream, o) + 1 > usize::MAX {
            RowStep::Fail(layer_err("lpix transparent run overflow"))
        } else if block_x + le_u16(stream, o) + 1 > blocks {
            RowStep::Fail(layer_err("lpix transparent run exceeds row width"))
        } else {
            RowStep::Next(o + 2, block_x + le_u16(stream, o) + 1, rgba)
        }
    } else if kind == 5 {
        if block_x >= blocks {
            RowStep::Fail(layer_err("lpix solid block exceeds row width"))
        } else if o + 8 > stream.len() {
            RowStep::Fail(layer_err("truncated layer data"))
        } else {
            let color = seq![
                le_u16(stream, o),
                le_u16(stream, o + 2),
                le_u16(stream, o + 4),
                le_u16(stream, o + 6),
            ];
            RowStep::Next(
                o + 8,
                block_x + 1,
                if intersects_spec(ax, by, w, h) {
                    blit_spec(rgba, solid_values(color), ax, by, w, h)
                } else {
                    rgba
                },
            )
        }
    } else if kind == 10 {
        if block_x >= blocks {
            RowStep::Fail(layer_err("lpix DPCM block exceeds row width"))
        } else if o + 2 > stream.len() {
            RowStep::Fail(layer_err("truncated layer data"))
        } else if o + 2 + le_u16(stream, o) > stream.len() {
            RowStep::Fail(layer_err("truncated lpix block"))
        } else {
            let end = o + 2 + le_u16(stream, o);
            if intersects_spec(ax, by, w, h) {
                match dpcm_block_spec(stream.subrange(o + 2, end)) {
                    Err(e) => RowStep::Fail(e),
                    Ok(vals) => RowStep::Next(end, block_x + 1, blit_spec(rgba, vals, ax, by, w, h)),
                }
            } else {
                RowStep::Next(end, block_x + 1, rgba)
            }
        }
    } else if kind == 15 {
        if block_x != blocks || o != stream.len() {
            RowStep::Fail(layer_err("lpix row ended at the wrong block"))
        } else {
            RowStep::Done(rgba)
        }
    } else {
        RowStep::Fail(layer_err("unsupported lpix block kind"))
    }
}

/// A record that continues the row ends after its start.
pub proof fn lemma_row_step_advances(
    stream: Seq<u8>,
    offset: int,
    block_x: int,
    ox: int,
    by: int,
    blocks: int,
    w: int,
    h: int,
    rgba: Seq<u8>,
)
    requires
        0 <= offset,
        offset + 2 <= stream.len(),
    ensures
        row_step(stream, offset, block_x, ox, by, blocks, w, h, rgba) matches RowStep::Next(o, _, _)
            ==> offset < o <= stream.len(),
{
}

/// Decodes the records of one block row from byte `offset` on.
pub open spec fn row_run(
    stream: Seq<u8>,
    offset: int,
    block_x: int,
    ox: int,
    by: int,
    blocks: int,
    w: int,
    h: int,
    rgba: Seq<u8>,
) -> Result<Seq<u8>, ParseError>
    decreases stream.len() - offset,
{
    if offset < 0 || offset + 2 > stream.len() {
        Err(layer_err("lpix row has no terminator"))
    } else {
        match row_step(stream, offset, block_x, ox, by, blocks, w, h, rgba) {
            RowStep::Fail(e) => Err(e),
            RowStep::Done(px) => Ok(px),
            RowStep::Next(o, bx, px) => {
                proof {
                    lemma_row_step_advances(stream, offset, block_x, ox, by, blocks, w, h, rgba);
                }
                row_run(stream, o, bx, ox, by, blocks, w, h, px)
            },
        }
    }
}

/// The outcome of decoding the block-row stream of grid row `row` of a
/// layer whose grid origin is (`ox`, `oy`) and which is `blocks` blocks
/// wide, into the `w` x `h` canvas `rgba`.
pub open spec fn block_row_spec(
    stream: Seq<u8>,
    ox: int,
    oy: int,
    blocks: int,
    row: int,
    w: int,
    h: int,
    rgba: Seq<u8>,
) -> Result<Seq<u8>, ParseError> {
    if row > i32::MAX {
        Err(layer_err("lpix row index is too large"))
    } else if oy + row > i32::MAX {
        Err(layer_err("lpix block Y overflow"))
    } else {
        row_run(stream, 0, 0, ox, oy + row, blocks, w, h, rgba)
    }
}

proof fn lemma_block_values_bound(d: Seq<i16>)
    ensures
        forall|i: int| 0 <= i < 4096 ==> 0 <= #[trigger] block_values(d)[i] <= 0xffff,
{
    assert forall|i: int| 0 <= i < 4096 implies 0 <= #[trigger] block_values(d)[i] <= 0xffff by {
        lemma_block_value_range(d, i % 4, (i / 4) / 32, (i / 4) % 32);
    }
}

/// Decodes one record of a block row at byte `offset` (at least two bytes
/// remain) and writes its block, if any: `None` at the row's terminator,
/// otherwise the next offset and block column.
fn decode_block_record(
    stream: &[u8],
    offset: usize,
    block_x: usize,
    block_origin_x: i32,
    block_y: i32,
    blocks: usize,
    canvas_width: u32,
    canvas_height: u32,
    rgba: &mut Vec<u8>,
) -> (r: Result<Option<(usize, usize)>, ParseError>)
    requires
        offset + 2 <= stream@.len(),
        block_x <= blocks <= u32::MAX,
        old(rgba)@.len() == canvas_width * canvas_height * 4,
    ensures
        match row_step(
            stream@,
            offset as int,
            block_x as int,
            block_origin_x as int,
            block_y as int,
            blocks as int,
            canvas_width as int,
            canvas_height as int,
            old(rgba)@,
        ) {
            RowStep::Next(o, bx, px) => r == Ok::<Option<(usize, usize)>, ParseError>(Some((o as usize, bx as usize)))
                && final(rgba)@ == px,
            RowStep::Done(px) => r == Ok::<Option<(usize, usize)>, ParseError>(None) && final(rgba)@ == px,
            RowStep::Fail(e) => r == Err::<Option<(usize, usize)>, ParseError>(e),
        },
        final(rgba)@.len() == old(rgba)@.len(),
{
    let len = stream.len();
    let marker = read_u16_le(stream, offset);
    let offset = offset + 2;
    if marker % 256 != 255 {
        return Err(layer_error("invalid lpix block marker"));
    }
    let kind = marker / 4096;
    let marker_x = (marker / 256) % 16;
    let absolute_x: i64 = block_origin_x as i64 + block_x as i64;
    let expected_x = ((absolute_x + 0x100_0000_0000) as u64 % 16) as u16;
    assert(expected_x as int == (block_origin_x + block_x) % 16);
    if marker_x != expected_x {
        return Err(layer_error("unexpected lpix block X checksum"));
    }
    if kind == 0 {
        let skip = match read16(stream, offset) {
            Ok(v) => v as usize + 1,
            Err(e) => {
                return Err(e);
            },
        };
        let next_x = match block_x.checked_add(skip) {
            Some(v) => v,
            None => {
                return Err(layer_error("lpix transparent run overflow"));
            },
        };
        if next_x > blocks {
            return Err(layer_error("lpix transparent run exceeds row width"));
        }
        Ok(Some((offset + 2, next_x)))
    } else if kind == 5 {
        if block_x >= blocks {
            return Err(layer_error("lpix solid block exceeds row width"));
        }
        if stream.len() - offset < 8 {
            return Err(layer_error("truncated layer data"));
        }
        let c0 = read_u16_le(stream, offset) as i32;
        let c1 = read_u16_le(stream, offset + 2) as i32;
        let c2 = read_u16_le(stream, offset + 4) as i32;
        let c3 = read_u16_le(stream, offset + 6) as i32;
        let ghost color = seq![c0 as int, c1 as int, c2 as int, c3 as int];
        if block_intersects_canvas(absolute_x, block_y as i64, canvas_width, canvas_height) {
            let mut values: Vec<i32> = Vec::with_capacity(4096);
            let mut i: usize = 0;
            while i < 1024
                invariant
                    i <= 1024,
                    color == seq![c0 as int, c1 as int, c2 as int, c3 as int],
                    values@.len() == i * 4,
                    forall|j: int| 0 <= j < i * 4 ==> values@[j] == solid_values(color)[j],
                decreases 1024 - i,
            {
                let ghost before = values@;
                values.push(c0);
                values.push(c1);
                values.push(c2);
                values.push(c3);
                proof {
                    assert forall|j: int| 0 <= j < (i + 1) * 4 implies values@[j] == solid_values(color)[j] by {
                        if j >= i * 4 {
                            assert(j % 4 == j - i * 4);
                        } else {
                            assert(values@[j] == before[j]);
                        }
                    }
                }
                i = i + 1;
            }
            assert(values@ =~= solid_values(color));
            blit_block(&values, absolute_x, block_y as i64, canvas_width, canvas_height, rgba);
        }
        Ok(Some((offset + 8, block_x + 1)))
    } else if kind == 10 {
        if block_x >= blocks {
            return Err(layer_error("lpix DPCM block exceeds row width"));
        }
        let size = match read16(stream, offset) {
            Ok(v) => v as usize,
            Err(e) => {
                return Err(e);
            },
        };
        let offset = offset + 2;
        if size > stream.len() - offset {
            return Err(layer_error("truncated lpix block"));
        }
        let end = offset + size;
        let compressed = slice_subrange(stream, offset, end);
        if block_intersects_canvas(absolute_x, block_y as i64, canvas_width, canvas_height) {
            let values = match decode_dpcm_block(compressed) {
                Ok(v) => v,
                Err(e) => {
                    return Err(e);
                },
            };
            proof {
                lemma_block_values_bound(
                    delta_row_outcome(compressed@, zero_deltas(4096), 1024, 4, 4)->Ok_0.1,
                );
            }
            blit_block(&values, absolute_x, block_y as i64, canvas_width, canvas_height, rgba);
        }
        Ok(Some((end, block_x + 1)))
    } else if kind == 15 {
        if block_x != blocks || offset != stream.len() {
            return Err(layer_error("lpix row ended at the wrong block"));
        }
        Ok(None)
    } else {
        Err(layer_error("unsupported lpix block kind"))
    }
}

/// Decodes one row of the sparse block grid and writes its blocks into the
/// straight-alpha RGBA canvas.
pub fn decode_block_row(
    stream: &[u8],
    block_origin_x: i32,
    block_origin_y: i32,
    block_width: u32,
    row: usize,
    canvas_width: u32,
    canvas_height: u32,
    rgba: &mut Vec<u8>,
) -> (r: Result<(), ParseError>)
    requires
        old(rgba)@.len() == canvas_width * canvas_height * 4,
    ensures
        match block_row_spec(
            stream@,
            block_origin_x as int,
            block_origin_y as int,
            block_width as int,
            row as int,
            canvas_width as int,
            canvas_height as int,
            old(rgba)@,
        ) {
            Ok(px) => r is Ok && final(rgba)@ == px,
            Err(e) => r == Err::<(), ParseError>(e),
        },
        final(rgba)@.len() == old(rgba)@.len(),
{
    let blocks = block_width as usize;
    if row > 0x7fff_ffff {
        return Err(layer_error("lpix row index is too large"));
    }
    let row_i32 = row as i32;
    let block_y = match block_origin_y.checked_add(row_i32) {
        Some(v) => v,
        None => {
            return Err(layer_error("lpix block Y overflow"));
        },
    };
    let ghost s = stream@;
    let ghost ox = block_origin_x as int;
    let ghost by = block_y as int;
    let ghost w = canvas_width as int;
    let ghost h = canvas_height as int;
    let ghost full = row_run(s, 0, 0, ox, by, blocks as int, w, h, old(rgba)@);
    assert(block_row_spec(s, ox, block_origin_y as int, blocks as int, row as int, w, h, old(rgba)@) == full);
    let mut block_x: usize = 0;
    let mut offset: usize = 0;
    while stream.len() - offset >= 2
        invariant
            block_row_spec(s, ox, block_origin_y as int, blocks as int, row as int, w, h, old(rgba)@) == full,
            s == stream@,
            ox == block_origin_x,
            by == block_y,
            w == canvas_width,
            h == canvas_height,
            blocks == block_width,
            block_x <= blocks,
            offset <= stream@.len(),
            rgba@.len() == w * h * 4,
            old(rgba)@.len() == w * h * 4,
            full == row_run(s, offset as int, block_x as int, ox, by, blocks as int, w, h, rgba@),
        decreases stream@.len() - offset,
    {
        match decode_block_record(
            stream,
            offset,
            block_x,
            block_origin_x,
            block_y,
            blocks,
            canvas_width,
            canvas_height,
            rgba,
        ) {
            Ok(Some((next_offset, next_x))) => {
                proof {
                    lemma_row_step_advances(s, offset as int, block_x as int, ox, by, blocks as int, w, h, old(rgba)@);
                }
                offset = next_offset;
                block_x = next_x;
            },
            Ok(None) => {
                return Ok(());
            },
            Err(e) => {
                return Err(e);
            },
        }
    }
    Err(layer_error("lpix row has no terminator"))
}

/// Decodes block rows `row..bh` of an `lpix` body, the row streams starting
/// at byte `pos` and sized by the body's row-size table.
pub open spec fn raster_rows(
    body: Seq<u8>,
    pos: int,
    row: int,
    bh: int,
    ox: int,
    oy: int,
    bw: int,
    w: int,
    h: int,
    rgba: Seq<u8>,
) -> Result<(int, Seq<u8>), ParseError>
    decreases bh - row,
{
    if row >= bh {
        Ok((pos, rgba))
    } else {
        let size = le_u32(body, 4 + 4 * row);
        if pos + size > usize::MAX {
            Err(layer_err("lpix row overflow"))
        } else if pos < 0 || pos + size > body.len() {
            Err(layer_err("truncated lpix row"))
        } else {
            match block_row_spec(body.subrange(pos, pos + size), ox, oy, bw, row, w, h, rgba) {
                Err(e) => Err(e),
                Ok(px) => raster_rows(body, pos + size, row + 1, bh, ox, oy, bw, w, h, px),
            }
        }
    }
}

/// The tag `dpcm`.
pub open spec fn lpix_dpcm_tag() -> Seq<u8> {
    seq![100u8, 112, 99, 109]
}

/// Decodes an `lpix` body of a layer whose block grid has origin
/// (`ox`, `oy`) and is `bw` x `bh` blocks into a `w` x `h` RGBA canvas.
pub open spec fn raster_spec(body: Seq<u8>, ox: int, oy: int, bw: int, bh: int, w: int, h: int) -> Result<Seq<u8>, ParseError> {
    if w * h * 4 > usize::MAX {
        Err(layer_err("layer image is too large"))
    } else if bw == 0 && bh == 0 {
        Ok(Seq::new((w * h * 4) as nat, |i: int| 0u8))
    } else if bw == 0 || bh == 0 {
        Err(layer_err("inconsistent lpix block dimensions"))
    } else if body.len() < 4 || body.subrange(0, 4) != lpix_dpcm_tag() {
        Err(layer_err("unsupported lpix encoding"))
    } else if 4 + 4 * bh > usize::MAX {
        Err(layer_err("lpix row-size table overflow"))
    } else if body.len() < 4 + 4 * bh {
        Err(layer_err("truncated lpix row-size table"))
    } else {
        raster_finish(body, raster_rows(body, 4 + 4 * bh, 0, bh, ox, oy, bw, w, h, Seq::new((w * h * 4) as nat, |i: int| 0u8)))
    }
}

/// The layer image from the outcome `rows` of decoding all block rows of
/// `body`: the bytes after the last row must be at most three zero bytes.
pub open spec fn raster_finish(body: Seq<u8>, rows: Result<(int, Seq<u8>), ParseError>) -> Result<Seq<u8>, ParseError> {
    match rows {
        Err(e) => Err(e),
        Ok((pos, px)) => if body.len() - pos > 3 || (exists|i: int| pos <= i < body.len() && body[i] != 0) {
            Err(layer_err("invalid lpix padding"))
        } else {
            Ok(px)
        },
    }
}

/// The byte length of a `width` x `height` RGBA image, if it fits.
fn image_len(width: u32, height: u32) -> (r: Result<usize, ParseError>)
    ensures
        width * height * 4 > usize::MAX ==> r == Err::<usize, ParseError>(layer_err("layer image is too large")),
        width * height * 4 <= usize::MAX ==> r == Ok::<usize, ParseError>((width * height * 4) as usize),
{
    let pixels = (width as u64).checked_mul(height as u64);
    let bytes = match pixels {
        Some(p) => p.checked_mul(4),
        None => None,
    };
    proof {
        let wi = width as int;
        let hi = height as int;
        assert(wi * hi <= 0xffff_ffff * 0xffff_ffffint) by (nonlinear_arith)
            requires
                0 <= wi <= 0xffff_ffff,
                0 <= hi <= 0xffff_ffff,
        ;
    }
    match bytes {
        Some(b) => {
            if b > usize::MAX as u64 {
                Err(layer_error("layer image is too large"))
            } else {
                Ok(b as usize)
            }
        },
        None => Err(layer_error("layer image is too large")),
    }
}

/// Decodes the sparse block grid of an `lpix` body into a straight-alpha
/// RGBA image of the canvas size.
pub fn decode_raster_layer(
    body: &[u8],
    block_origin_x: i32,
    block_origin_y: i32,
    block_width: u32,
    block_height: u32,
    width: u32,
    height: u32,
) -> (r: Result<RgbaImage, ParseError>)
    ensures
        match raster_spec(
            body@,
            block_origin_x as int,
            block_origin_y as int,
            block_width as int,
            block_height as int,
            width as int,
            height as int,
        ) {
            Ok(px) => r matches Ok(img) && img.width() == width && img.height() == height
                && img.pixel_data() == px,
            Err(e) => r == Err::<RgbaImage, ParseError>(e),
        },
{
    let len = match image_len(width, height) {
        Ok(n) => n,
        Err(e) => {
            return Err(e);
        },
    };
    let mut rgba: Vec<u8> = vec![0u8; len];
    let ghost zero = Seq::new((width * height * 4) as nat, |i: int| 0u8);
    assert(rgba@ =~= zero);
    if block_width == 0 && block_height == 0 {
        return Ok(RgbaImage::from_pixels(width, height, rgba));
    }
    if block_width == 0 || block_height == 0 {
        return Err(layer_error("inconsistent lpix block dimensions"));
    }
    if body.len() < 4 {
        return Err(layer_error("unsupported lpix encoding"));
    }
    let tag = read_array4(body, 0);
    if !(tag[0] == 100 && tag[1] == 112 && tag[2] == 99 && tag[3] == 109) {
        assert(body@.subrange(0, 4) != lpix_dpcm_tag()) by {
            assert(tag@ == body@.subrange(0, 4));
            if body@.subrange(0, 4) == lpix_dpcm_tag() {
                assert(tag@[0] == 100 && tag@[1] == 112 && tag@[2] == 99 && tag@[3] == 109);
            }
        }
        return Err(layer_error("unsupported lpix encoding"));
    }
    assert(body@.subrange(0, 4) =~= lpix_dpcm_tag());
    let rows = block_height as usize;
    let table_bytes = match rows.checked_mul(4) {
        Some(v) => match v.checked_add(4) {
            Some(t) => t,
            None => {
                return Err(layer_error("lpix row-size table overflow"));
            },
        },
        None => {
            return Err(layer_error("lpix row-size table overflow"));
        },
    };
    if body.len() < table_bytes {
        return Err(layer_error("truncated lpix row-size table"));
    }
    let ghost b = body@;
    let ghost ox = block_origin_x as int;
    let ghost oy = block_origin_y as int;
    let ghost bw = block_width as int;
    let ghost bh = block_height as int;
    let ghost w = width as int;
    let ghost h = height as int;
    let ghost full = raster_rows(b, table_bytes as int, 0, bh, ox, oy, bw, w, h, zero);
    let ghost result = raster_spec(b, ox, oy, bw, bh, w, h);
    assert(result == raster_finish(b, full));
    let mut offset = table_bytes;
    let mut row: usize = 0;
    while row < rows
        invariant
            b == body@,
            ox == block_origin_x,
            oy == block_origin_y,
            bw == block_width,
            bh == block_height,
            w == width,
            h == height,
            rows == block_height,
            table_bytes == 4 + 4 * rows,
            body@.len() >= table_bytes,
            row <= rows,
            offset <= body@.len(),
            rgba@.len() == w * h * 4,
            result == raster_spec(b, ox, oy, bw, bh, w, h),
            result == raster_finish(b, full),
            full == raster_rows(b, offset as int, row as int, bh, ox, oy, bw, w, h, rgba@),
        decreases rows - row,
    {
        let size = read_u32_le(body, 4 + row * 4) as usize;
        let end = match offset.checked_add(size) {
            Some(v) => v,
            None => {
                return Err(layer_error("lpix row overflow"));
            },
        };
        if end > body.len() {
            return Err(layer_error("truncated lpix row"));
        }
        let stream = slice_subrange(body, offset, end);
        match decode_block_row(
            stream,
            block_origin_x,
            block_origin_y,
            block_width,
            row,
            width,
            height,
            &mut rgba,
        ) {
            Ok(()) => {},
            Err(e) => {
                return Err(e);
            },
        }
        offset = end;
        row = row + 1;
    }
    if body.len() - offset > 3 {
        return Err(layer_error("invalid lpix padding"));
    }
    let mut i = offset;
    while i < body.len()
        invariant
            b == body@,
            result == raster_spec(b, ox, oy, bw, bh, w, h),
            result == raster_finish(b, full),
            full == Ok::<(int, Seq<u8>), ParseError>((offset as int, rgba@)),
            ox == block_origin_x,
            oy == block_origin_y,
            bw == block_width,
            bh == block_height,
            w == width,
            h == height,
            body@.len() - offset <= 3,
            offset <= i <= body@.len(),
            forall|j: int| offset <= j < i ==> body@[j] == 0,
        decreases body@.len() - i,
    {
        if body[i] != 0 {
            assert(offset <= i < b.len() && b[i as int] != 0);
            return Err(layer_error("invalid lpix padding"));
        }
        i = i + 1;
    }
    Ok(RgbaImage::from_pixels(width, height, rgba))
}

/// Decodes UTF-16 code units from index `i` on, appending to `acc`:
/// surrogate pairs combine into one character and an unpaired surrogate
/// makes the text invalid.
pub open spec fn utf16_run(units: Seq<u16>, i: int, acc: Seq<char>) -> Option<Seq<char>>
    decreases units.len() - i,
{
    if i < 0 || i >= units.len() {
        Some(acc)
    } else {
        let u = units[i] as int;
        if u < 0xD800 || u > 0xDFFF {
            utf16_run(units, i + 1, acc.push(u as char))
        } else if u <= 0xDBFF && i + 1 < units.len() && 0xDC00 <= units[i + 1] <= 0xDFFF {
            utf16_run(
                units,
                i + 2,
                acc.push((0x10000 + (u - 0xD800) * 1024 + (units[i + 1] - 0xDC00)) as char),
            )
        } else {
            None
        }
    }
}

/// The UTF-16 code units of a `name` parameter value: a little-endian
/// unit count followed by the units.
pub open spec fn name_units(value: Seq<u8>) -> Seq<u16> {
    Seq::new(le_u16(value, 0) as nat, |i: int| le_u16(value, 2 + 2 * i) as u16)
}

/// Decodes a `name` parameter value.
pub open spec fn decode_name_spec(value: Seq<u8>) -> Result<Seq<char>, &'static str> {
    if value.len() < 2 {
        Err("truncated layer name")
    } else if 2 + 2 * le_u16(value, 0) > value.len() {
        Err("truncated UTF-16 layer name")
    } else {
        match utf16_run(name_units(value), 0, Seq::empty()) {
            None => Err("invalid UTF-16 layer name"),
            Some(chars) => Ok(chars),
        }
    }
}

/// Decodes a layer's UTF-16LE `name` parameter.
pub fn decode_name(value: &[u8]) -> (r: Result<String, ParseError>)
    ensures
        match decode_name_spec(value@) {
            Ok(chars) => r matches Ok(name) && name@ == chars,
            Err(e) => r == Err::<String, ParseError>(layer_err(e)),
        },
{
    if value.len() < 2 {
        return Err(layer_error("truncated layer name"));
    }
    let count = read_u16_le(value, 0) as usize;
    let bytes = count * 2 + 2;
    if bytes > value.len() {
        return Err(layer_error("truncated UTF-16 layer name"));
    }
    let ghost units = name_units(value@);
    let mut name = String::new();
    let mut i: usize = 0;
    while i < count
        invariant
            count == le_u16(value@, 0),
            units == name_units(value@),
            units.len() == count,
            2 + 2 * count <= value@.len(),
            i <= count,
            utf16_run(units, 0, Seq::empty()) == utf16_run(units, i as int, name@),
        decreases count - i,
    {
        let unit = read_u16_le(value, 2 + 2 * i);
        assert(unit == units[i as int]);
        if unit < 0xD800 || unit > 0xDFFF {
            match char_from_u32(unit as u32) {
                Some(c) => {
                    assert(c == (unit as u32) as char);
                    assert((unit as u32) as char == (unit as int) as char);
                    push_char(&mut name, c);
                },
                None => {
                    return Err(layer_error("invalid UTF-16 layer name"));
                },
            }
            i = i + 1;
        } else if unit <= 0xDBFF && i + 1 < count {
            let next = read_u16_le(value, 2 + 2 * (i + 1));
            assert(next == units[i + 1]);
            if 0xDC00 <= next && next <= 0xDFFF {
                let combined = 0x10000 + (unit as u32 - 0xD800) * 1024 + (next as u32 - 0xDC00);
                match char_from_u32(combined) {
                    Some(c) => {
                        assert(c == combined as char);
                        push_char(&mut name, c);
                    },
                    None => {
                        return Err(layer_error("invalid UTF-16 layer name"));
                    },
                }
                i = i + 2;
            } else {
                return Err(layer_error("invalid UTF-16 layer name"));
            }
        } else {
            return Err(layer_error("invalid UTF-16 layer name"));
        }
    }
    Ok(name)
}

/// The tag `name`.
pub open spec fn name_tag() -> Seq<u8> {
    seq![110u8, 97, 109, 101]
}

/// Walks the tagged parameters of a `layr` body from byte `offset` on: each
/// is a four-byte tag, a little-endian length and that many bytes; a zero
/// tag or fewer than four remaining bytes ends the list. The result is the
/// last `name` parameter's text, if any.
pub open spec fn param_run(body: Seq<u8>, offset: int, name: Option<Seq<char>>) -> Result<Option<Seq<char>>, &'static str>
    decreases body.len() - offset,
{
    if offset < 0 || offset + 4 > body.len() {
        Ok(name)
    } else {
        let tag = body.subrange(offset, offset + 4);
        let o = offset + 4;
        if tag == seq![0u8, 0, 0, 0] {
            Ok(name)
        } else if o + 4 > body.len() {
            Err("truncated layer data")
        } else {
            let length = le_u32(body, o);
            let start = o + 4;
            if start + length > usize::MAX {
                Err("layer parameter overflow")
            } else if start + length > body.len() {
                Err("truncated layer parameter")
            } else if tag == name_tag() {
                match decode_name_spec(body.subrange(start, start + length)) {
                    Err(e) => Err(e),
                    Ok(n) => param_run(body, start + length, Some(n)),
                }
            } else {
                param_run(body, start + length, name)
            }
        }
    }
}

/// The tag `layr`.
pub open spec fn layr_tag() -> Seq<u8> {
    seq![108u8, 97, 121, 114]
}

/// The outcome of parsing a `layr` body: the name parameter, if any.
pub open spec fn parse_layer_outcome(body: Seq<u8>) -> Result<Option<Seq<char>>, &'static str> {
    if body.len() < 56 || body.subrange(0, 4) != layr_tag() {
        Err("invalid layr header")
    } else {
        param_run(body, 56, None)
    }
}

/// The name a layer without a `name` parameter receives.
pub open spec fn default_name(id: int) -> Seq<char> {
    seq!['L', 'a', 'y', 'e', 'r', ' '] + decimal(id as nat)
}

/// What a decoded layer holds: its descriptor fields, the table indices of
/// the chunks that share its object ID, and its pixels if decoded.
pub ghost struct LayerInfo {
    pub id: u32,
    pub layer_type: Seq<u8>,
    pub blend_mode: Seq<u8>,
    pub opacity: u8,
    pub flags: u32,
    pub name: Seq<char>,
    pub origin_x: i32,
    pub origin_y: i32,
    pub block_width: u32,
    pub tile_count: u32,
    pub sources: Seq<int>,
    pub image: Option<Seq<u8>>,
}

/// The descriptor fields of a `layr` body, with name `name` (or the
/// default name), no source chunks and no image.
pub open spec fn header_info(body: Seq<u8>, name: Option<Seq<char>>) -> LayerInfo {
    let id = le_u32(body, 4);
    LayerInfo {
        id: id as u32,
        layer_type: body.subrange(16, 20),
        blend_mode: body.subrange(44, 48),
        opacity: (if le_u32(body, 48) > 100 {
            100
        } else {
            le_u32(body, 48)
        }) as u8,
        flags: le_u32(body, 52) as u32,
        name: match name {
            Some(n) => n,
            None => default_name(id),
        },
        origin_x: le_i32(body, 28) as i32,
        origin_y: le_i32(body, 32) as i32,
        block_width: le_u32(body, 36) as u32,
        tile_count: le_u32(body, 40) as u32,
        sources: Seq::empty(),
        image: None,
    }
}

/// Metadata and, when supported, decoded pixels for one SAI2 layer.
#[derive(Debug, Clone, PartialEq, Eq)]
pub struct Sai2Layer {
    id: u32,
    layer_type: FourCc,
    blend_mode: FourCc,
    opacity: u8,
    flags: u32,
    name: String,
    block_origin_x: i32,
    block_origin_y: i32,
    block_width: u32,
    tile_count: u32,
    source_chunks: Vec<Chunk>,
    image: Option<RgbaImage>,
}

impl Sai2Layer {
    pub closed spec fn spec_id(&self) -> u32 {
        self.id
    }

    pub closed spec fn spec_layer_type(&self) -> FourCc {
        self.layer_type
    }

    pub closed spec fn spec_blend_mode(&self) -> FourCc {
        self.blend_mode
    }

    pub closed spec fn spec_opacity(&self) -> u8 {
        self.opacity
    }

    pub closed spec fn spec_flags(&self) -> u32 {
        self.flags
    }

    pub closed spec fn spec_tile_count(&self) -> u32 {
        self.tile_count
    }

    pub closed spec fn name_view(&self) -> Seq<char> {
        self.name@
    }

    pub closed spec fn spec_block_origin(&self) -> (i32, i32) {
        (self.block_origin_x, self.block_origin_y)
    }

    pub closed spec fn spec_block_dimensions(&self) -> (u32, u32) {
        (self.block_width, self.tile_count)
    }

    pub closed spec fn source_list(&self) -> Seq<Chunk> {
        self.source_chunks@
    }

    pub closed spec fn image_view(&self) -> Option<RgbaImage> {
        self.image
    }

    /// This layer holds what `info` describes, its source chunks being the
    /// listed entries of the `count`-entry table of `s` and its image, if
    /// any, covering a `w` x `h` canvas.
    #[verifier::opaque]
    pub open spec fn describes(&self, info: LayerInfo, s: Seq<u8>, count: int, w: int, h: int) -> bool {
        &&& self.id() == info.id
        &&& self.layer_type().as_bytes()@ == info.layer_type
        &&& self.blend_mode().as_bytes()@ == info.blend_mode
        &&& self.opacity() == info.opacity
        &&& self.flags() == info.flags
        &&& self.name_view() == info.name
        &&& self.block_origin() == (info.origin_x, info.origin_y)
        &&& self.block_dimensions() == (info.block_width, info.tile_count)
        &&& self.tile_count() == info.tile_count
        &&& self.source_list().len() == info.sources.len()
        &&& forall|j: int|
            0 <= j < info.sources.len() ==> #[trigger] self.source_list()[j].parsed_from(s, count, info.sources[j])
        &&& match info.image {
            None => self.image_view() is None,
            Some(px) => self.image_view() matches Some(img) && img.width() == w && img.height() == h
                && img.pixel_data() == px,
        }
    }

    #[verifier::when_used_as_spec(spec_id)]
    pub fn id(&self) -> (r: u32)
        ensures
            r == self.spec_id(),
    {
        self.id
    }

    #[verifier::when_used_as_spec(spec_layer_type)]
    pub fn layer_type(&self) -> (r: FourCc)
        ensures
            r == self.spec_layer_type(),
    {
        self.layer_type
    }

    #[verifier::when_used_as_spec(spec_blend_mode)]
    pub fn blend_mode(&self) -> (r: FourCc)
        ensures
            r == self.spec_blend_mode(),
    {
        self.blend_mode
    }

    #[verifier::when_used_as_spec(spec_opacity)]
    pub fn opacity(&self) -> (r: u8)
        ensures
            r == self.spec_opacity(),
    {
        self.opacity
    }

    #[verifier::when_used_as_spec(spec_flags)]
    pub fn flags(&self) -> (r: u32)
        ensures
            r == self.spec_flags(),
    {
        self.flags
    }

    pub fn name(&self) -> (r: &str)
        ensures
            r@ == self.name_view(),
    {
        self.name.as_str()
    }

    #[verifier::when_used_as_spec(spec_tile_count)]
    pub fn tile_count(&self) -> (r: u32)
        ensures
            r == self.spec_tile_count(),
    {
        self.tile_count
    }

    #[verifier::when_used_as_spec(spec_block_origin)]
    pub fn block_origin(&self) -> (r: (i32, i32))
        ensures
            r == self.spec_block_origin(),
    {
        (self.block_origin_x, self.block_origin_y)
    }

    #[verifier::when_used_as_spec(spec_block_dimensions)]
    pub fn block_dimensions(&self) -> (r: (u32, u32))
        ensures
            r == self.spec_block_dimensions(),
    {
        (self.block_width, self.tile_count)
    }

    pub fn image(&self) -> (r: Option<&RgbaImage>)
        ensures
            match self.image_view() {
                None => r is None,
                Some(img) => r matches Some(i) && *i == img,
            },
    {
        match &self.image {
            Some(img) => Some(img),
            None => None,
        }
    }

    /// Returns the source document's SAI2 chunks that belong to this layer.
    ///
    /// The records retain offsets into the input rather than copying chunk
    /// bodies, so callers can preserve still-unknown layer data without a
    /// second allocation proportional to the source document.
    pub fn source_chunks(&self) -> (r: &[Chunk])
        ensures
            r@ == self.source_list(),
    {
        self.source_chunks.as_slice()
    }

    pub open spec fn spec_nesting_level(&self) -> u8 {
        (self.flags() % 256) as u8
    }

    pub open spec fn spec_is_folder(&self) -> bool {
        self.layer_type().as_bytes()@ == seq![102u8, 111u8, 108u8, 100u8]
    }

    pub open spec fn spec_clipped_to_below(&self) -> bool {
        (self.flags() / 0x0100_0000) % 2 == 1
    }

    pub open spec fn spec_alpha_locked(&self) -> bool {
        (self.flags() / 0x100) % 2 == 1
    }

    /// Folder nesting depth: the low byte of the flags.
    #[verifier::when_used_as_spec(spec_nesting_level)]
    pub fn nesting_level(&self) -> (r: u8)
        ensures
            r == self.spec_nesting_level(),
    {
        (self.flags % 256) as u8
    }

    /// Whether the layer is a folder (type `fold`).
    #[verifier::when_used_as_spec(spec_is_folder)]
    pub fn is_folder(&self) -> (r: bool)
        ensures
            r == self.spec_is_folder(),
    {
        self.layer_type.is([102, 111, 108, 100])
    }

    /// Whether the layer is clipped to the layer below it (flag 0x0100_0000).
    #[verifier::when_used_as_spec(spec_clipped_to_below)]
    pub fn clipped_to_below(&self) -> (r: bool)
        ensures
            r == self.spec_clipped_to_below(),
    {
        (self.flags / 0x0100_0000) % 2 == 1
    }

    /// Whether the layer's transparency is locked (flag 0x0000_0100).
    #[verifier::when_used_as_spec(spec_alpha_locked)]
    pub fn alpha_locked(&self) -> (r: bool)
        ensures
            r == self.spec_alpha_locked(),
    {
        (self.flags / 0x100) % 2 == 1
    }

    /// Whether the layer's visibility flag (0x0001_0000) is set.
    pub fn visible(&self) -> (r: bool)
        ensures
            r == (self.flags() & 0x0001_0000 != 0),
    {
        self.flags & 0x0001_0000 != 0
    }
}

/// Parses a `layr` chunk body into layer metadata with no source chunks and
/// no image.
#[verifier::spinoff_prover]
pub fn parse_layer(body: &[u8]) -> (r: Result<Sai2Layer, ParseError>)
    ensures
        match parse_layer_outcome(body@) {
            Err(e) => r == Err::<Sai2Layer, ParseError>(layer_err(e)),
            Ok(name) => r matches Ok(layer) && layer.describes(header_info(body@, name), Seq::empty(), 0, 0, 0),
        },
{
    if body.len() < 56 {
        return Err(layer_error("invalid layr header"));
    }
    let tag = read_array4(body, 0);
    if !(tag[0] == 108 && tag[1] == 97 && tag[2] == 121 && tag[3] == 114) {
        assert(body@.subrange(0, 4) != layr_tag()) by {
            if body@.subrange(0, 4) == layr_tag() {
                assert(tag@[0] == 108 && tag@[1] == 97 && tag@[2] == 121 && tag@[3] == 114);
            }
        }
        return Err(layer_error("invalid layr header"));
    }
    assert(body@.subrange(0, 4) =~= layr_tag());
    let id = read_u32_le(body, 4);
    let layer_type = FourCc::from_bytes(read_array4(body, 16));
    let block_origin_x = read_i32_le(body, 28);
    let block_origin_y = read_i32_le(body, 32);
    let block_width = read_u32_le(body, 36);
    let tile_count = read_u32_le(body, 40);
    let blend_mode = FourCc::from_bytes(read_array4(body, 44));
    let opacity_raw = read_u32_le(body, 48);
    let opacity: u8 = if opacity_raw > 100 {
        100
    } else {
        opacity_raw as u8
    };
    let flags = read_u32_le(body, 52);
    let mut name = String::new();
    push_char(&mut name, 'L');
    push_char(&mut name, 'a');
    push_char(&mut name, 'y');
    push_char(&mut name, 'e');
    push_char(&mut name, 'r');
    push_char(&mut name, ' ');
    append_decimal(&mut name, id as u64);
    assert(name@ =~= default_name(id as int));
    let ghost b = body@;
    let ghost mut found: Option<Seq<char>> = None;
    let mut offset: usize = 56;
    let mut done = false;
    while !done && body.len() - offset >= 4
        invariant
            b == body@,
            56 <= offset <= b.len(),
            !done ==> parse_layer_outcome(b) == param_run(b, offset as int, found),
            done ==> parse_layer_outcome(b) == Ok::<Option<Seq<char>>, &'static str>(found),
            match found {
                Some(n) => name@ == n,
                None => name@ == default_name(id as int),
            },
        decreases b.len() - offset,
    {
        let param = read_array4(body, offset);
        offset = offset + 4;
        if param[0] == 0 && param[1] == 0 && param[2] == 0 && param[3] == 0 {
            assert(b.subrange(offset - 4, offset as int) =~= seq![0u8, 0, 0, 0]);
            done = true;
            continue;
        }
        assert(b.subrange(offset - 4, offset as int) != seq![0u8, 0, 0, 0]) by {
            if b.subrange(offset - 4, offset as int) == seq![0u8, 0, 0, 0] {
                assert(param@[0] == 0 && param@[1] == 0 && param@[2] == 0 && param@[3] == 0);
            }
        }
        if body.len() - offset < 4 {
            return Err(layer_error("truncated layer data"));
        }
        let length = read_u32_le(body, offset) as usize;
        offset = offset + 4;
        let end = match offset.checked_add(length) {
            Some(v) => v,
            None => {
                return Err(layer_error("layer parameter overflow"));
            },
        };
        if end > body.len() {
            return Err(layer_error("truncated layer parameter"));
        }
        if param[0] == 110 && param[1] == 97 && param[2] == 109 && param[3] == 101 {
            assert(b.subrange(offset - 8, offset - 4) =~= name_tag());
            let value = slice_subrange(body, offset, end);
            name = match decode_name(value) {
                Ok(n) => n,
                Err(e) => {
                    return Err(e);
                },
            };
            proof {
                found = Some(name@);
            }
        } else {
            assert(b.subrange(offset - 8, offset - 4) != name_tag()) by {
                if b.subrange(offset - 8, offset - 4) == name_tag() {
                    assert(param@[0] == 110 && param@[1] == 97 && param@[2] == 109 && param@[3] == 101);
                }
            }
        }
        offset = end;
    }
    reveal(Sai2Layer::describes);
    Ok(
        Sai2Layer {
            id,
            layer_type,
            blend_mode,
            opacity,
            flags,
            name,
            block_origin_x,
            block_origin_y,
            block_width,
            tile_count,
            source_chunks: Vec::new(),
            image: None,
        },
    )
}

/// The tag `lpix`.
pub open spec fn lpix_tag() -> Seq<u8> {
    seq![108u8, 112, 105, 120]
}

/// The tag `norm`.
pub open spec fn norm_tag() -> Seq<u8> {
    seq![110u8, 111, 114, 109]
}

/// The layer described by the `layr` chunk at table entry `i` of a valid
/// document `s` with `count` entries and a `w` x `h` canvas: its descriptor,
/// the entries sharing its object ID and, for a `norm` layer with an `lpix`
/// chunk, its decoded pixels.
#[verifier::opaque]
pub open spec fn layer_info_spec(s: Seq<u8>, count: int, i: int, w: int, h: int) -> Result<LayerInfo, ParseError> {
    let body = chunk_body_spec(s, count, i);
    match parse_layer_outcome(body) {
        Err(e) => Err(layer_err(e)),
        Ok(name) => {
            let info = header_info(body, name);
            let base = LayerInfo { sources: ids_upto(s, info.id as int, count), ..info };
            if info.layer_type == norm_tag() {
                match find_kind_id(s, count, lpix_tag(), info.id as int, 0) {
                    None => Ok(base),
                    Some(k) => match raster_spec(
                        chunk_body_spec(s, count, k),
                        info.origin_x as int,
                        info.origin_y as int,
                        info.block_width as int,
                        info.tile_count as int,
                        w,
                        h,
                    ) {
                        Err(e) => Err(e),
                        Ok(px) => Ok(LayerInfo { image: Some(px), ..base }),
                    },
                }
            } else {
                Ok(base)
            }
        },
    }
}

/// Decodes the layers of the `layr` chunks among entries `i..count`, in
/// table order, after the layers `acc`.
pub open spec fn layers_run(s: Seq<u8>, count: int, i: int, w: int, h: int, acc: Seq<LayerInfo>) -> Result<Seq<LayerInfo>, ParseError>
    decreases count - i,
{
    if i < 0 || i >= count {
        Ok(acc)
    } else if kind_at(s, i) == layr_tag() {
        match layer_info_spec(s, count, i, w, h) {
            Err(e) => Err(e),
            Ok(info) => layers_run(s, count, i + 1, w, h, acc.push(info)),
        }
    } else {
        layers_run(s, count, i + 1, w, h, acc)
    }
}

/// The layers of a valid document `s`, or the error decoding them reports.
pub open spec fn layers_spec(s: Seq<u8>, max_pixels: u64) -> Result<Seq<LayerInfo>, ParseError> {
    let w = le_u32(s, 20);
    let h = le_u32(s, 24);
    if w * h > max_pixels {
        Err(ParseError::ImageTooLarge { pixels: (w * h) as u64, max_pixels })
    } else {
        layers_run(s, le_u32(s, 32), 0, w, h, Seq::empty())
    }
}

/// The body bytes of `chunk`.
fn chunk_body<'a>(input: &'a [u8], chunk: &Chunk) -> (r: &'a [u8])
    requires
        chunk.offset() + chunk.size() <= input@.len(),
    ensures
        r@ == input@.subrange(chunk.offset() as int, chunk.offset() + chunk.size()),
{
    let len = input.len();
    let start = chunk.offset() as usize;
    slice_subrange(input, start, start + chunk.size())
}

/// Decodes the layer of the `layr` chunk at table index `i`.
#[verifier::spinoff_prover]
fn decode_one_layer(input: &[u8], chunks: &[Chunk], i: usize, width: u32, height: u32) -> (r: Result<Sai2Layer, ParseError>)
    requires
        chunks_describe(input@, chunks@),
        i < chunks@.len(),
    ensures
        match layer_info_spec(input@, le_u32(input@, 32), i as int, width as int, height as int) {
            Ok(info) => r matches Ok(layer) && layer.describes(info, input@, le_u32(input@, 32), width as int, height as int),
            Err(e) => r == Err::<Sai2Layer, ParseError>(e),
        },
{
    let ghost s = input@;
    let ghost count = le_u32(s, 32);
    reveal(Sai2Layer::describes);
    reveal(layer_info_spec);
    proof {
        lemma_chunk_within(s, chunks@, i as int);
    }
    let body = chunk_body(input, &chunks[i]);
    assert(body@ == chunk_body_spec(s, count, i as int));
    let mut layer = match parse_layer(body) {
        Ok(l) => l,
        Err(e) => {
            return Err(e);
        },
    };
    let ghost name = parse_layer_outcome(body@)->Ok_0;
    let ghost info = header_info(body@, name);
    let id = layer.id;
    let mut sources: Vec<Chunk> = Vec::new();
    let mut j: usize = 0;
    while j < chunks.len()
        invariant
            s == input@,
            count == le_u32(s, 32),
            chunks_describe(s, chunks@),
            j <= chunks@.len(),
            id == info.id,
            sources@.len() == ids_upto(s, id as int, j as int).len(),
            forall|k: int|
                0 <= k < sources@.len() ==> #[trigger] sources@[k].parsed_from(s, count, ids_upto(s, id as int, j as int)[k]),
        decreases chunks@.len() - j,
    {
        let ghost prev = ids_upto(s, id as int, j as int);
        assert(chunks@[j as int].parsed_from(s, count, j as int));
        if chunks[j].object_id() == id {
            sources.push(chunks[j]);
            assert(ids_upto(s, id as int, j + 1) == prev + seq![j as int]);
        } else {
            assert(ids_upto(s, id as int, j + 1) =~= prev);
        }
        j = j + 1;
    }
    layer.source_chunks = sources;
    let norm: [u8; 4] = [110, 111, 114, 109];
    assert(norm@ =~= norm_tag());
    if !layer.layer_type.is(norm) {
        return Ok(layer);
    }
    let lpix: [u8; 4] = [108, 112, 105, 120];
    assert(lpix@ =~= lpix_tag());
    let k = match first_chunk_with(chunks, lpix, id) {
        Some(k) => k,
        None => {
            proof {
                assert forall|j: int| 0 <= j < count implies !(kind_at(s, j) == lpix_tag() && object_id_at(s, j) == id) by {
                    assert(chunks@[j].parsed_from(s, count, j));
                }
                lemma_find_kind_id_none(s, count, lpix_tag(), id as int, 0);
            }
            return Ok(layer);
        },
    };
    proof {
        assert forall|j: int| 0 <= j < k implies !(kind_at(s, j) == lpix_tag() && object_id_at(s, j) == id) by {
            assert(chunks@[j].parsed_from(s, count, j));
        }
        assert(chunks@[k as int].parsed_from(s, count, k as int));
    }
    proof {
        lemma_find_kind_id_some(s, count, lpix_tag(), id as int, 0, k as int);
        lemma_chunk_within(s, chunks@, k as int);
    }
    let pixel_body = chunk_body(input, &chunks[k]);
    assert(pixel_body@ == chunk_body_spec(s, count, k as int));
    let image = match decode_raster_layer(
        pixel_body,
        layer.block_origin_x,
        layer.block_origin_y,
        layer.block_width,
        layer.tile_count,
        width,
        height,
    ) {
        Ok(img) => img,
        Err(e) => {
            return Err(e);
        },
    };
    layer.image = Some(image);
    Ok(layer)
}

/// Parses layer descriptors and decodes the raster layers supported so far.
///
/// Unsupported layer-pixel layouts remain present as metadata with no image.
/// This lets callers preserve layer order while compatibility grows.
#[verifier::spinoff_prover]
#[verifier::rlimit(40)]
pub fn decode_layers(input: &[u8], limits: DecodeLimits) -> (r: Result<Vec<Sai2Layer>, ParseError>)
    ensures
        !document_valid(input@) ==> (r matches Err(e) && document_outcome(input@, Err(e))),
        document_valid(input@) ==> match layers_spec(input@, limits.max_pixels) {
            Ok(infos) => r matches Ok(v) && v@.len() == infos.len() && forall|j: int|
                0 <= j < infos.len() ==> #[trigger] v@[j].describes(
                    infos[j],
                    input@,
                    le_u32(input@, 32),
                    le_u32(input@, 20),
                    le_u32(input@, 24),
                ),
            Err(e) => r == Err::<Vec<Sai2Layer>, ParseError>(e),
        },
{
    let ghost s = input@;
    let document = match Sai2Document::parse(input) {
        Ok(d) => d,
        Err(e) => {
            return Err(e);
        },
    };
    proof {
        lemma_document_chunks(s, document);
    }
    let header = document.header();
    let width = header.width();
    let height = header.height();
    proof {
        let wi = width as int;
        let hi = height as int;
        assert(wi * hi <= 0xffff_ffff * 0xffff_ffffint) by (nonlinear_arith)
            requires
                0 <= wi <= 0xffff_ffff,
                0 <= hi <= 0xffff_ffff,
        ;
    }
    let pixels = match (width as u64).checked_mul(height as u64) {
        Some(p) => p,
        None => {
            return Err(ParseError::InvalidImageDimensions { width, height });
        },
    };
    if pixels > limits.max_pixels {
        return Err(ParseError::ImageTooLarge { pixels, max_pixels: limits.max_pixels });
    }
    let chunks = document.chunks();
    let ghost count = le_u32(s, 32);
    let ghost w = width as int;
    let ghost h = height as int;
    let ghost full = layers_run(s, count, 0, w, h, Seq::empty());
    let layr: [u8; 4] = [108, 97, 121, 114];
    assert(layr@ =~= layr_tag());
    let mut layers: Vec<Sai2Layer> = Vec::new();
    let ghost mut infos: Seq<LayerInfo> = Seq::empty();
    let mut i: usize = 0;
    while i < chunks.len()
        invariant
            s == input@,
            count == le_u32(s, 32),
            w == le_u32(s, 20),
            h == le_u32(s, 24),
            w == width,
            h == height,
            chunks_describe(s, chunks@),
            document_valid(s),
            layr@ == layr_tag(),
            i <= chunks@.len(),
            full == layers_spec(s, limits.max_pixels),
            full == layers_run(s, count, i as int, w, h, infos),
            layers@.len() == infos.len(),
            forall|j: int| 0 <= j < infos.len() ==> #[trigger] layers@[j].describes(infos[j], s, count, w, h),
        decreases chunks@.len() - i,
    {
        assert(chunks@[i as int].parsed_from(s, count, i as int));
        if chunks[i].kind().is(layr) {
            let layer = match decode_one_layer(input, chunks, i, width, height) {
                Ok(l) => l,
                Err(e) => {
                    return Err(e);
                },
            };
            let ghost info = layer_info_spec(s, count, i as int, w, h)->Ok_0;
            let ghost old_layers = layers@;
            layers.push(layer);
            proof {
                assert forall|j: int| 0 <= j < infos.len() + 1 implies #[trigger] layers@[j].describes(
                    infos.push(info)[j],
                    s,
                    count,
                    w,
                    h,
                ) by {
                    if j < infos.len() {
                        assert(layers@[j] == old_layers[j]);
                    }
                }
                infos = infos.push(info);
            }
        }
        i = i + 1;
    }
    Ok(layers)
}

proof fn lemma_blit_rows_upto_len(rgba: Seq<u8>, vals: Seq<i32>, bx: int, by: int, w: int, h: int, n: int)
    ensures
        blit_rows_upto(rgba, vals, bx, by, w, h, n).len() == rgba.len(),
    decreases n,
{
    if n > 0 {
        lemma_blit_rows_upto_len(rgba, vals, bx, by, w, h, n - 1);
    }
}

proof fn lemma_row_run_len(
    stream: Seq<u8>,
    offset: int,
    block_x: int,
    ox: int,
    by: int,
    blocks: int,
    w: int,
    h: int,
    rgba: Seq<u8>,
)
    ensures
        row_run(stream, offset, block_x, ox, by, blocks, w, h, rgba) matches Ok(px) ==> px.len()
            == rgba.len(),
    decreases stream.len() - offset,
{
    if !(offset < 0 || offset + 2 > stream.len()) {
        let marker = le_u16(stream, offset);
        let o = offset + 2;
        let ax = ox + block_x;
        if o + 8 <= stream.len() {
            let color = seq![
                le_u16(stream, o),
                le_u16(stream, o + 2),
                le_u16(stream, o + 4),
                le_u16(stream, o + 6),
            ];
            lemma_blit_rows_upto_len(rgba, solid_values(color), ax, by, w, h, 32);
        }
        if o + 2 <= stream.len() && o + 2 + le_u16(stream, o) <= stream.len() {
            let end = o + 2 + le_u16(stream, o);
            if let Ok(vals) = dpcm_block_spec(stream.subrange(o + 2, end)) {
                lemma_blit_rows_upto_len(rgba, vals, ax, by, w, h, 32);
            }
        }
        match row_step(stream, offset, block_x, ox, by, blocks, w, h, rgba) {
            RowStep::Next(o2, bx2, px) => {
                lemma_row_step_advances(stream, offset, block_x, ox, by, blocks, w, h, rgba);
                lemma_row_run_len(stream, o2, bx2, ox, by, blocks, w, h, px);
            },
            _ => {},
        }
    }
}

proof fn lemma_raster_rows_len(
    body: Seq<u8>,
    pos: int,
    row: int,
    bh: int,
    ox: int,
    oy: int,
    bw: int,
    w: int,
    h: int,
    rgba: Seq<u8>,
)
    ensures
        raster_rows(body, pos, row, bh, ox, oy, bw, w, h, rgba) matches Ok((_, px)) ==> px.len()
            == rgba.len(),
    decreases bh - row,
{
    if row < bh {
        let size = le_u32(body, 4 + 4 * row);
        if !(pos + size > usize::MAX) && !(pos < 0 || pos + size > body.len()) {
            let stream = body.subrange(pos, pos + size);
            if row <= i32::MAX && oy + row <= i32::MAX {
                lemma_row_run_len(stream, 0, 0, ox, oy + row, bw, w, h, rgba);
            }
            match block_row_spec(stream, ox, oy, bw, row, w, h, rgba) {
                Err(e) => {},
                Ok(px) => {
                    lemma_raster_rows_len(body, pos + size, row + 1, bh, ox, oy, bw, w, h, px);
                },
            }
        }
    }
}

/// A decoded raster layer image holds exactly four bytes (R, G, B, A) for
/// each pixel of the canvas.
pub proof fn lemma_raster_image_len(body: Seq<u8>, ox: int, oy: int, bw: int, bh: int, w: int, h: int)
    requires
        0 <= w,
        0 <= h,
    ensures
        raster_spec(body, ox, oy, bw, bh, w, h) matches Ok(px) ==> px.len() == w * h * 4,
{
    assert(w * h * 4 >= 0) by (nonlinear_arith)
        requires
            0 <= w,
            0 <= h,
    ;
    lemma_raster_rows_len(body, 4 + 4 * bh, 0, bh, ox, oy, bw, w, h, Seq::new((w * h * 4) as nat, |i: int| 0u8));
}



/// Each restored block value is the prediction `left + above - upper_left`
/// (neighbours outside the block counting as zero) limited to
/// `0..=0x4000`, plus the sample's delta, limited to `0..=0x4000` again.
pub proof fn lemma_block_value_step(d: Seq<i16>, c: int, y: int, x: int)
    requires
        0 <= c < 4,
        0 <= y < 32,
        0 <= x < 32,
    ensures
        ({
            let left = if x > 0 {
                block_value(d, c, y, x - 1)
            } else {
                0
            };
            let above = if y > 0 {
                block_value(d, c, y - 1, x)
            } else {
                0
            };
            let upper_left = if x > 0 && y > 0 {
                block_value(d, c, y - 1, x - 1)
            } else {
                0
            };
            let t = left + above - upper_left;
            let p = if t < 0 {
                0
            } else if t > 0x4000 {
                0x4000
            } else {
                t
            };
            let u = p + d[(y * 32 + x) * 4 + c] as int;
            block_value(d, c, y, x) == (if u < 0 {
                0
            } else if u > 0x4000 {
                0x4000
            } else {
                u
            })
        }),
{
}

/// A layer's opacity is its descriptor's opacity field limited to 100.
pub proof fn lemma_layer_opacity_limited(body: Seq<u8>, name: Option<Seq<char>>)
    requires
        body.len() >= 56,
    ensures
        header_info(body, name).opacity <= 100,
        le_u32(body, 48) <= 100 ==> header_info(body, name).opacity as int == le_u32(body, 48),
        le_u32(body, 48) > 100 ==> header_info(body, name).opacity == 100,
{
    lemma_le_bounds(body, 48);
}

/// A block whose deltas are zero everywhere but at its first pixel restores
/// to a flat block: every pixel of channel `c` holds the first pixel's
/// delta, limited to `0..=0x4000`. This holds because each prediction is
/// `left + above - upper_left`, which reproduces a flat neighbourhood.
pub proof fn lemma_flat_block_value(d: Seq<i16>, c: int, y: int, x: int)
    requires
        d.len() == 4096,
        0 <= c < 4,
        0 <= y < 32,
        0 <= x < 32,
        forall|i: int| 4 <= i < 4096 ==> #[trigger] d[i] == 0,
    ensures
        block_value(d, c, y, x) == (if d[c] < 0 {
            0
        } else if d[c] > 0x4000 {
            0x4000
        } else {
            d[c] as int
        }),
    decreases y * 32 + x,
{
    if x > 0 {
        lemma_flat_block_value(d, c, y, x - 1);
    }
    if y > 0 {
        lemma_flat_block_value(d, c, y - 1, x);
        if x > 0 {
            lemma_flat_block_value(d, c, y - 1, x - 1);
        }
    }
    if y > 0 || x > 0 {
        assert(d[(y * 32 + x) * 4 + c] == 0);
    }
}

/// The restored block of deltas that are zero everywhere but at the first
/// pixel is that pixel's deltas (limited to `0..=0x4000`) repeated over all
/// 1024 pixels.
pub proof fn lemma_flat_block(d: Seq<i16>)
    requires
        d.len() == 4096,
        forall|i: int| 4 <= i < 4096 ==> #[trigger] d[i] == 0,
    ensures
        forall|i: int|
            0 <= i < 4096 ==> #[trigger] block_values(d)[i] as int == (if d[i % 4] < 0 {
                0
            } else if d[i % 4] > 0x4000 {
                0x4000
            } else {
                d[i % 4] as int
            }),
{
    assert forall|i: int| 0 <= i < 4096 implies #[trigger] block_values(d)[i] as int == (if d[i
        % 4] < 0 {
        0
    } else if d[i % 4] > 0x4000 {
        0x4000
    } else {
        d[i % 4] as int
    }) by {
        lemma_flat_block_value(d, i % 4, (i / 4) / 32, (i / 4) % 32);
        lemma_block_value_range(d, i % 4, (i / 4) / 32, (i / 4) % 32);
    }
}

/// The layer flags decide the derived properties bit by bit: clipping is
/// bit 0x0100_0000, alpha lock bit 0x100, the folder depth the low byte,
/// and visibility bit 0x0001_0000.
pub proof fn lemma_layer_flag_bits(layer: Sai2Layer)
    ensures
        layer.clipped_to_below() <==> (layer.flags() & 0x0100_0000u32) != 0,
        layer.alpha_locked() <==> (layer.flags() & 0x100u32) != 0,
        layer.nesting_level() as u32 == layer.flags() & 0xffu32,
{
    let f = layer.flags();
    assert(((f / 0x0100_0000) % 2 == 1) <==> (f & 0x0100_0000u32) != 0) by (bit_vector);
    assert(((f / 0x100) % 2 == 1) <==> (f & 0x100u32) != 0) by (bit_vector);
    assert((f % 256) as u8 as u32 == f & 0xffu32) by (bit_vector);
}

} // verus!
