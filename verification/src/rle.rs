//! RLE-compressed PSD channel planes: a row-size table followed by the
//! PackBits encoding of each row.

use vstd::prelude::*;

use vstd::slice::slice_subrange;

use crate::bytes::{be16, push_u16_be};
use crate::packbits::{
    inverted, lemma_packbits_inverted_len, lemma_packbits_round_trip, packbits, packbits_row_len,
    write_packbits_row,
};

verus! {

/// The PackBits size of each row.
pub open spec fn row_sizes(rows: Seq<Seq<u8>>) -> Seq<u16> {
    Seq::new(rows.len(), |i: int| packbits(rows[i]).len() as u16)
}

/// Whether every row's PackBits encoding fits a 16-bit size.
pub open spec fn rows_fit(rows: Seq<Seq<u8>>) -> bool {
    forall|i: int| 0 <= i < rows.len() ==> #[trigger] packbits(rows[i]).len() <= 65535
}

/// Sizes written as big-endian 16-bit values.
pub open spec fn size_table(sizes: Seq<u16>) -> Seq<u8>
    decreases sizes.len(),
{
    if sizes.len() == 0 {
        Seq::empty()
    } else {
        size_table(sizes.drop_last()) + be16(sizes.last() as int)
    }
}

/// The sum of the sizes.
pub open spec fn size_sum(sizes: Seq<u16>) -> int
    decreases sizes.len(),
{
    if sizes.len() == 0 {
        0
    } else {
        size_sum(sizes.drop_last()) + sizes.last()
    }
}

/// The PackBits encodings of the rows, one after another.
pub open spec fn packed_rows(rows: Seq<Seq<u8>>) -> Seq<u8>
    decreases rows.len(),
{
    if rows.len() == 0 {
        Seq::empty()
    } else {
        packed_rows(rows.drop_last()) + packbits(rows.last())
    }
}

/// An RLE-compressed PSD channel: compression method 1, the row-size table,
/// then the PackBits rows.
pub open spec fn rle_plane(rows: Seq<Seq<u8>>) -> Seq<u8> {
    be16(1) + size_table(row_sizes(rows)) + packed_rows(rows)
}

/// The byte size of an RLE channel whose rows have the given PackBits sizes.
pub open spec fn rle_len(sizes: Seq<u16>) -> int {
    2 + 2 * sizes.len() + size_sum(sizes)
}

/// Channel `c` of the row-major RGBA pixels, as `height` rows of `width`
/// bytes.
pub open spec fn channel_rows(rgba: Seq<u8>, c: int, width: int, height: int) -> Seq<Seq<u8>> {
    Seq::new(
        height as nat,
        |y: int| Seq::new(width as nat, |x: int| rgba[(y * width + x) * 4 + c]),
    )
}

/// `height` rows of `width` copies of `value`.
pub open spec fn solid_rows(value: u8, width: int, height: int) -> Seq<Seq<u8>> {
    Seq::new(height as nat, |y: int| Seq::new(width as nat, |x: int| value))
}

pub(crate) proof fn lemma_size_table_len(sizes: Seq<u16>)
    ensures
        size_table(sizes).len() == 2 * sizes.len(),
    decreases sizes.len(),
{
    if sizes.len() > 0 {
        lemma_size_table_len(sizes.drop_last());
    }
}

pub(crate) proof fn lemma_packed_rows_len(rows: Seq<Seq<u8>>)
    requires
        rows_fit(rows),
    ensures
        packed_rows(rows).len() == size_sum(row_sizes(rows)),
    decreases rows.len(),
{
    if rows.len() > 0 {
        let init = rows.drop_last();
        assert forall|i: int| 0 <= i < init.len() implies #[trigger] packbits(init[i]).len()
            <= 65535 by {
            assert(init[i] == rows[i]);
        }
        lemma_packed_rows_len(init);
        assert(row_sizes(rows).drop_last() =~= row_sizes(init));
        assert(packbits(rows[rows.len() - 1]).len() <= 65535);
    }
}

/// The size that an RLE channel announces is the size of the channel.
pub proof fn lemma_rle_plane_len(rows: Seq<Seq<u8>>)
    requires
        rows_fit(rows),
    ensures
        rle_plane(rows).len() == rle_len(row_sizes(rows)),
{
    lemma_size_table_len(row_sizes(rows));
    lemma_packed_rows_len(rows);
}

/// Rows of at most 30000 bytes always fit.
pub(crate) proof fn lemma_rows_fit(rows: Seq<Seq<u8>>, width: int)
    requires
        0 <= width <= 30000,
        forall|i: int| 0 <= i < rows.len() ==> #[trigger] rows[i].len() == width,
    ensures
        rows_fit(rows),
{
    assert forall|i: int| 0 <= i < rows.len() implies #[trigger] packbits(rows[i]).len()
        <= 65535 by {
        lemma_packbits_round_trip(rows[i]);
    }
}

/// Appends each size as a big-endian 16-bit value.
pub(crate) fn write_row_lengths(output: &mut Vec<u8>, lengths: &[u16])
    ensures
        final(output)@ == old(output)@ + size_table(lengths@),
{
    let mut i: usize = 0;
    while i < lengths.len()
        invariant
            i <= lengths@.len(),
            output@ == old(output)@ + size_table(lengths@.subrange(0, i as int)),
        decreases lengths@.len() - i,
    {
        push_u16_be(output, lengths[i]);
        proof {
            let t = lengths@.subrange(0, i + 1);
            assert(t.drop_last() =~= lengths@.subrange(0, i as int));
        }
        i = i + 1;
    }
    assert(lengths@.subrange(0, lengths@.len() as int) =~= lengths@);
}

/// The sum of at most 30000 sizes, each below 2^16.
pub(crate) fn size_total(lengths: &[u16]) -> (r: usize)
    requires
        lengths@.len() <= 30000,
    ensures
        r == size_sum(lengths@),
        r <= 65535 * lengths@.len(),
{
    let mut total: usize = 0;
    let mut i: usize = 0;
    while i < lengths.len()
        invariant
            i <= lengths@.len() <= 30000,
            total == size_sum(lengths@.subrange(0, i as int)),
            total <= 65535 * i,
        decreases lengths@.len() - i,
    {
        total = total + lengths[i] as usize;
        proof {
            let t = lengths@.subrange(0, i + 1);
            assert(t.drop_last() =~= lengths@.subrange(0, i as int));
        }
        i = i + 1;
    }
    assert(lengths@.subrange(0, lengths@.len() as int) =~= lengths@);
    total
}

/// The byte size of an RLE channel with the given row sizes.
pub(crate) fn rle_channel_len(row_lengths: &[u16]) -> (r: u32)
    requires
        row_lengths@.len() <= 30000,
    ensures
        r == rle_len(row_lengths@),
{
    let encoded = size_total(row_lengths);
    (2 + row_lengths.len() * 2 + encoded) as u32
}

/// Row `y` of channel `c`.
pub(crate) fn channel_row(rgba: &[u8], channel: usize, width: usize, y: usize) -> (r: Vec<u8>)
    requires
        channel < 4,
        (y * width + width) * 4 <= rgba@.len(),
    ensures
        r@ == Seq::new(width as nat, |x: int| rgba@[(y * width + x) * 4 + channel]),
{
    let mut row: Vec<u8> = Vec::new();
    let n = rgba.len();
    proof {
        assert(y * width * 4 <= (y * width + width) * 4) by (nonlinear_arith);
        assert(0 <= y * width) by (nonlinear_arith);
    }
    let base = y * width * 4;
    let mut x: usize = 0;
    while x < width
        invariant
            n == rgba@.len(),
            x <= width,
            channel < 4,
            base == y * width * 4,
            (y * width + width) * 4 <= rgba@.len(),
            row@ =~= Seq::new(x as nat, |i: int| rgba@[(y * width + i) * 4 + channel]),
        decreases width - x,
    {
        proof {
            assert((y * width + x) * 4 + channel == base + x * 4 + channel) by (nonlinear_arith)
                requires
                    base == y * width * 4,
            ;
            assert((y * width + x) * 4 + channel < (y * width + width) * 4) by (nonlinear_arith)
                requires
                    x < width,
                    channel < 4,
            ;
        }
        row.push(rgba[base + x * 4 + channel]);
        x = x + 1;
    }
    row
}


/// Whether `len` bytes hold `width` x `height` RGBA pixels.
pub open spec fn rgba_len_ok(len: int, width: int, height: int) -> bool {
    len == width * height * 4
}

pub(crate) proof fn lemma_rgba_index(width: int, height: int, y: int)
    requires
        0 <= y < height,
        0 <= width,
    ensures
        (y * width + width) * 4 <= width * height * 4,
        0 <= y * width,
{
    assert((y * width + width) * 4 <= width * height * 4) by (nonlinear_arith)
        requires
            y + 1 <= height,
            0 <= width,
    ;
    assert(0 <= y * width) by (nonlinear_arith)
        requires
            0 <= y,
            0 <= width,
    ;
}

/// The PackBits size of each row of channel `channel`.
pub(crate) fn rgba_row_lengths(rgba: &[u8], channel: usize, width: u32, height: u32) -> (r: Result<
    Vec<u16>,
    String,
>)
    requires
        channel < 4,
        1 <= width <= 30000,
        height <= 30000,
    ensures
        rgba_len_ok(rgba@.len() as int, width as int, height as int) ==> (r matches Ok(v) && v@
            == row_sizes(channel_rows(rgba@, channel as int, width as int, height as int))),
        !rgba_len_ok(rgba@.len() as int, width as int, height as int) ==> (r matches Err(e)
            && e@ == "RGBA pixel length does not match PSD dimensions"@),
{
    let w = width as usize;
    let h = height as usize;
    assert(w * h * 4 <= 30000 * 30000 * 4) by (nonlinear_arith)
        requires
            w <= 30000,
            h <= 30000,
    ;
    if rgba.len() != w * h * 4 {
        return Err("RGBA pixel length does not match PSD dimensions".to_owned());
    }
    let ghost rows = channel_rows(rgba@, channel as int, width as int, height as int);
    let mut lengths: Vec<u16> = Vec::new();
    let mut y: usize = 0;
    while y < h
        invariant
            y <= h,
            w == width,
            h == height,
            channel < 4,
            1 <= width <= 30000,
            rgba@.len() == w * h * 4,
            rows == channel_rows(rgba@, channel as int, width as int, height as int),
            lengths@ == row_sizes(rows).subrange(0, y as int),
        decreases h - y,
    {
        proof {
            lemma_rgba_index(w as int, h as int, y as int);
        }
        let row = channel_row(rgba, channel, w, y);
        assert(row@ =~= rows[y as int]);
        let size = packbits_row_len(row.as_slice());
        proof {
            lemma_packbits_round_trip(row@);
        }
        lengths.push(size as u16);
        y = y + 1;
        assert(lengths@ =~= row_sizes(rows).subrange(0, y as int));
    }
    assert(lengths@ =~= row_sizes(rows));
    Ok(lengths)
}

/// Appends the PackBits rows of channel `channel`.
pub(crate) fn write_rgba_rows(output: &mut Vec<u8>, rgba: &[u8], channel: usize, width: u32, height: u32)
    requires
        channel < 4,
        1 <= width <= 30000,
        height <= 30000,
        rgba_len_ok(rgba@.len() as int, width as int, height as int),
    ensures
        final(output)@ == old(output)@ + packed_rows(
            channel_rows(rgba@, channel as int, width as int, height as int),
        ),
{
    let w = width as usize;
    let h = height as usize;
    let ghost rows = channel_rows(rgba@, channel as int, width as int, height as int);
    let mut y: usize = 0;
    while y < h
        invariant
            y <= h,
            w == width,
            h == height,
            channel < 4,
            1 <= width <= 30000,
            rgba@.len() == w * h * 4,
            rows == channel_rows(rgba@, channel as int, width as int, height as int),
            output@ == old(output)@ + packed_rows(rows.subrange(0, y as int)),
        decreases h - y,
    {
        proof {
            lemma_rgba_index(w as int, h as int, y as int);
        }
        let row = channel_row(rgba, channel, w, y);
        assert(row@ =~= rows[y as int]);
        write_packbits_row(output, row.as_slice());
        proof {
            let t = rows.subrange(0, y + 1);
            assert(t.drop_last() =~= rows.subrange(0, y as int));
        }
        y = y + 1;
    }
    assert(rows.subrange(0, h as int) =~= rows);
}

/// The byte size of the RLE plane of channel `channel`.
pub(crate) fn rle_rgba_plane_len(rgba: &[u8], channel: usize, width: u32, height: u32) -> (r: Result<
    u32,
    String,
>)
    requires
        channel < 4,
        1 <= width <= 30000,
        height <= 30000,
    ensures
        rgba_len_ok(rgba@.len() as int, width as int, height as int) ==> r == Ok::<u32, String>(
            rle_len(row_sizes(channel_rows(rgba@, channel as int, width as int, height as int)))
                as u32,
        ),
        !rgba_len_ok(rgba@.len() as int, width as int, height as int) ==> (r matches Err(e)
            && e@ == "RGBA pixel length does not match PSD dimensions"@),
{
    let row_lengths = match rgba_row_lengths(rgba, channel, width, height) {
        Ok(v) => v,
        Err(e) => {
            return Err(e);
        },
    };
    Ok(rle_channel_len(row_lengths.as_slice()))
}

/// Appends the RLE plane of channel `channel`.
pub(crate) fn write_rle_rgba_plane(
    output: &mut Vec<u8>,
    rgba: &[u8],
    channel: usize,
    width: u32,
    height: u32,
) -> (r: Result<(), String>)
    requires
        channel < 4,
        1 <= width <= 30000,
        height <= 30000,
    ensures
        rgba_len_ok(rgba@.len() as int, width as int, height as int) ==> (r is Ok && final(output)@ == old(output)@ + rle_plane(
            channel_rows(rgba@, channel as int, width as int, height as int),
        )),
        !rgba_len_ok(rgba@.len() as int, width as int, height as int) ==> (r matches Err(e)
            && e@ == "RGBA pixel length does not match PSD dimensions"@ && final(output)@ == old(output)@),
{
    let lengths = match rgba_row_lengths(rgba, channel, width, height) {
        Ok(v) => v,
        Err(e) => {
            return Err(e);
        },
    };
    push_u16_be(output, 1);
    write_row_lengths(output, lengths.as_slice());
    write_rgba_rows(output, rgba, channel, width, height);
    assert(final(output)@ =~= old(output)@ + rle_plane(
        channel_rows(rgba@, channel as int, width as int, height as int),
    ));
    Ok(())
}

/// Row sizes of a plane of one repeated byte.
pub(crate) fn solid_row_lengths(value: u8, width: u32, height: u32) -> (r: Vec<u16>)
    requires
        width <= 30000,
        height <= 30000,
    ensures
        r@ == row_sizes(solid_rows(value, width as int, height as int)),
{
    let w = width as usize;
    let h = height as usize;
    let row: Vec<u8> = vec![value; w];
    let ghost rows = solid_rows(value, width as int, height as int);
    assert(row@ =~= Seq::new(w as nat, |x: int| value));
    let size = packbits_row_len(row.as_slice());
    proof {
        lemma_packbits_round_trip(row@);
    }
    let mut lengths: Vec<u16> = Vec::new();
    let mut y: usize = 0;
    while y < h
        invariant
            y <= h,
            h == height,
            w == width,
            size == packbits(Seq::new(w as nat, |x: int| value)).len(),
            size <= 60000,
            rows == solid_rows(value, width as int, height as int),
            lengths@ == row_sizes(rows).subrange(0, y as int),
        decreases h - y,
    {
        lengths.push(size as u16);
        y = y + 1;
        assert(lengths@ =~= row_sizes(rows).subrange(0, y as int));
    }
    assert(lengths@ =~= row_sizes(rows));
    lengths
}

/// The byte size of an RLE plane of zero bytes.
pub(crate) fn rle_solid_plane_len(width: u32, height: u32) -> (r: u32)
    requires
        width <= 30000,
        height <= 30000,
    ensures
        r == rle_len(row_sizes(solid_rows(0, width as int, height as int))),
{
    let lengths = solid_row_lengths(0, width, height);
    rle_channel_len(lengths.as_slice())
}

/// Appends an RLE plane whose every byte is `value`.
pub(crate) fn write_rle_solid_plane(output: &mut Vec<u8>, value: u8, width: u32, height: u32)
    requires
        width <= 30000,
        height <= 30000,
    ensures
        final(output)@ == old(output)@ + rle_plane(solid_rows(value, width as int, height as int)),
{
    let w = width as usize;
    let h = height as usize;
    let row: Vec<u8> = vec![value; w];
    let ghost rows = solid_rows(value, width as int, height as int);
    assert(row@ =~= Seq::new(w as nat, |x: int| value));
    let lengths = solid_row_lengths(value, width, height);
    push_u16_be(output, 1);
    write_row_lengths(output, lengths.as_slice());
    let ghost head = output@;
    let mut y: usize = 0;
    while y < h
        invariant
            y <= h,
            h == height,
            w == width,
            row@ == Seq::new(w as nat, |x: int| value),
            rows == solid_rows(value, width as int, height as int),
            output@ == head + packed_rows(rows.subrange(0, y as int)),
        decreases h - y,
    {
        assert(row@ =~= rows[y as int]);
        write_packbits_row(output, row.as_slice());
        proof {
            let t = rows.subrange(0, y + 1);
            assert(t.drop_last() =~= rows.subrange(0, y as int));
        }
        y = y + 1;
    }
    assert(rows.subrange(0, h as int) =~= rows);
    assert(final(output)@ =~= old(output)@ + rle_plane(rows));
}

/// The merged image in PSD's image-data section: compression method 1, the
/// row-size tables of the red, green, blue and alpha channels, then their
/// PackBits rows in the same order.
pub open spec fn composite_plane(rgba: Seq<u8>, width: int, height: int) -> Seq<u8> {
    let c0 = channel_rows(rgba, 0, width, height);
    let c1 = channel_rows(rgba, 1, width, height);
    let c2 = channel_rows(rgba, 2, width, height);
    let c3 = channel_rows(rgba, 3, width, height);
    be16(1) + size_table(row_sizes(c0)) + size_table(row_sizes(c1)) + size_table(row_sizes(c2))
        + size_table(row_sizes(c3)) + packed_rows(c0) + packed_rows(c1) + packed_rows(c2)
        + packed_rows(c3)
}

/// Appends the merged image.
pub(crate) fn write_rle_composite(output: &mut Vec<u8>, rgba: &[u8], width: u32, height: u32) -> (r: Result<
    (),
    String,
>)
    requires
        1 <= width <= 30000,
        height <= 30000,
    ensures
        rgba_len_ok(rgba@.len() as int, width as int, height as int) ==> (r is Ok && final(output)@ == old(output)@ + composite_plane(rgba@, width as int, height as int)),
        !rgba_len_ok(rgba@.len() as int, width as int, height as int) ==> (r matches Err(e)
            && e@ == "RGBA pixel length does not match PSD dimensions"@ && final(output)@ == old(output)@),
{
    let l0 = match rgba_row_lengths(rgba, 0, width, height) {
        Ok(v) => v,
        Err(e) => {
            return Err(e);
        },
    };
    let l1 = match rgba_row_lengths(rgba, 1, width, height) {
        Ok(v) => v,
        Err(e) => {
            return Err(e);
        },
    };
    let l2 = match rgba_row_lengths(rgba, 2, width, height) {
        Ok(v) => v,
        Err(e) => {
            return Err(e);
        },
    };
    let l3 = match rgba_row_lengths(rgba, 3, width, height) {
        Ok(v) => v,
        Err(e) => {
            return Err(e);
        },
    };
    push_u16_be(output, 1);
    write_row_lengths(output, l0.as_slice());
    write_row_lengths(output, l1.as_slice());
    write_row_lengths(output, l2.as_slice());
    write_row_lengths(output, l3.as_slice());
    write_rgba_rows(output, rgba, 0, width, height);
    write_rgba_rows(output, rgba, 1, width, height);
    write_rgba_rows(output, rgba, 2, width, height);
    write_rgba_rows(output, rgba, 3, width, height);
    assert(final(output)@ =~= old(output)@ + composite_plane(rgba@, width as int, height as int));
    Ok(())
}


/// The rows of a row-major grayscale image.
pub open spec fn gray_rows(gray: Seq<u8>, width: int, height: int) -> Seq<Seq<u8>> {
    Seq::new(height as nat, |y: int| gray.subrange(y * width, y * width + width))
}

/// The rows of a grayscale image with every value `v` replaced by `255 - v`.
pub open spec fn inverted_rows(gray: Seq<u8>, width: int, height: int) -> Seq<Seq<u8>> {
    Seq::new(
        height as nat,
        |y: int| Seq::new(width as nat, |x: int| (255 - gray[y * width + x]) as u8),
    )
}

/// Why a `width` x `height` grayscale image of `gray` cannot become an RLE
/// plane, if it cannot.
pub open spec fn gray_plane_error(gray: Seq<u8>, width: int, height: int) -> Option<Seq<char>> {
    if width * height > usize::MAX {
        Some("PSD image is too large"@)
    } else if gray.len() != width * height {
        Some("grayscale pixel length does not match PSD dimensions"@)
    } else if !rows_fit(gray_rows(gray, width, height)) {
        Some("PSD RLE row exceeds 65535 bytes"@)
    } else {
        None
    }
}

pub(crate) proof fn lemma_gray_row(width: int, height: int, y: int)
    requires
        0 <= y < height,
        0 <= width,
    ensures
        y * width + width <= width * height,
        0 <= y * width,
        (y + 1) * width == y * width + width,
{
    assert(y * width + width <= width * height) by (nonlinear_arith)
        requires
            y + 1 <= height,
            0 <= width,
    ;
    assert(0 <= y * width) by (nonlinear_arith)
        requires
            0 <= y,
            0 <= width,
    ;
    assert((y + 1) * width == y * width + width) by (nonlinear_arith);
}

/// The PackBits size of each row of a grayscale image.
pub(crate) fn gray_row_lengths(gray: &[u8], width: u32, height: u32) -> (r: Result<Vec<u16>, String>)
    requires
        gray@.len() <= isize::MAX,
        width > 0 || gray@.len() > 0,
    ensures
        match gray_plane_error(gray@, width as int, height as int) {
            Some(message) => r matches Err(e) && e@ == message,
            None => r matches Ok(v) && v@ == row_sizes(
                gray_rows(gray@, width as int, height as int),
            ),
        },
{
    let w = width as usize;
    let h = height as usize;
    let total = match w.checked_mul(h) {
        Some(t) => t,
        None => {
            return Err("PSD image is too large".to_owned());
        },
    };
    if gray.len() != total {
        return Err("grayscale pixel length does not match PSD dimensions".to_owned());
    }
    proof {
        if w == 0 {
            assert(w * h == 0) by (nonlinear_arith)
                requires
                    w == 0,
            ;
        }
    }
    let ghost rows = gray_rows(gray@, width as int, height as int);
    let mut lengths: Vec<u16> = Vec::new();
    let mut y: usize = 0;
    let mut start: usize = 0;
    while y < h
        invariant
            y <= h,
            w == width,
            h == height,
            w > 0,
            gray@.len() == w * h,
            gray@.len() <= isize::MAX,
            start == y * w,
            rows == gray_rows(gray@, width as int, height as int),
            lengths@ == row_sizes(rows).subrange(0, y as int),
            forall|i: int| 0 <= i < y ==> #[trigger] packbits(rows[i]).len() <= 65535,
        decreases h - y,
    {
        proof {
            lemma_gray_row(w as int, h as int, y as int);
        }
        let row = slice_subrange(gray, start, start + w);
        assert(row@ =~= rows[y as int]);
        let size = packbits_row_len(row);
        if size > 65535 {
            return Err("PSD RLE row exceeds 65535 bytes".to_owned());
        }
        lengths.push(size as u16);
        y = y + 1;
        start = start + w;
        assert(lengths@ =~= row_sizes(rows).subrange(0, y as int));
    }
    assert(lengths@ =~= row_sizes(rows));
    Ok(lengths)
}

/// The inverted rows have the PackBits sizes of the rows as given.
pub(crate) proof fn lemma_gray_inverted_sizes(gray: Seq<u8>, width: int, height: int)
    requires
        0 <= width,
        0 <= height,
        gray.len() == width * height,
    ensures
        row_sizes(gray_rows(gray, width, height)) == row_sizes(inverted_rows(gray, width, height)),
{
    let g = gray_rows(gray, width, height);
    let v = inverted_rows(gray, width, height);
    assert forall|y: int| 0 <= y < height implies #[trigger] row_sizes(g)[y] == row_sizes(v)[y] by {
        lemma_gray_row(width, height, y);
        assert(v[y] =~= inverted(g[y]));
        lemma_packbits_inverted_len(g[y]);
    }
    assert(row_sizes(g) =~= row_sizes(v));
}

/// Appends a grayscale layer mask as an RLE channel. SAI2 mask values grow
/// with coverage while PSD's grow with concealment, so every value `v` is
/// written as `255 - v`.
/// (Like every slice, `gray` holds at most `isize::MAX` bytes; a zero width
/// needs an empty row, which has no rows to split.)
pub fn write_rle_gray_plane(output: &mut Vec<u8>, gray: &[u8], width: u32, height: u32) -> (r:
    Result<(), String>)
    requires
        gray@.len() <= isize::MAX,
        width > 0 || gray@.len() > 0,
    ensures
        match gray_plane_error(gray@, width as int, height as int) {
            Some(message) => r matches Err(e) && e@ == message && final(output)@ == old(output)@,
            None => r is Ok && final(output)@ == old(output)@ + rle_plane(
                inverted_rows(gray@, width as int, height as int),
            ),
        },
{
    let lengths = match gray_row_lengths(gray, width, height) {
        Ok(v) => v,
        Err(e) => {
            return Err(e);
        },
    };
    proof {
        lemma_gray_inverted_sizes(gray@, width as int, height as int);
        if width == 0 {
            assert(width as int * height as int == 0) by (nonlinear_arith)
                requires
                    width == 0,
            ;
        }
    }
    push_u16_be(output, 1);
    write_row_lengths(output, lengths.as_slice());
    let ghost head = output@;
    let ghost rows = inverted_rows(gray@, width as int, height as int);
    let w = width as usize;
    let h = height as usize;
    let n = gray.len();
    let mut y: usize = 0;
    let mut start: usize = 0;
    while y < h
        invariant
            y <= h,
            w == width,
            h == height,
            w > 0,
            n == gray@.len(),
            gray@.len() == w * h,
            start == y * w,
            rows == inverted_rows(gray@, width as int, height as int),
            output@ == head + packed_rows(rows.subrange(0, y as int)),
        decreases h - y,
    {
        proof {
            lemma_gray_row(w as int, h as int, y as int);
        }
        let mut inverted: Vec<u8> = Vec::new();
        let mut x: usize = 0;
        while x < w
            invariant
                x <= w,
                n == gray@.len(),
                start + w <= gray@.len(),
                start == y * w,
                inverted@ =~= Seq::new(x as nat, |i: int| (255 - gray@[y * w + i]) as u8),
            decreases w - x,
        {
            inverted.push(255 - gray[start + x]);
            x = x + 1;
        }
        assert(inverted@ =~= rows[y as int]);
        write_packbits_row(output, inverted.as_slice());
        proof {
            let t = rows.subrange(0, y + 1);
            assert(t.drop_last() =~= rows.subrange(0, y as int));
        }
        y = y + 1;
        start = start + w;
    }
    assert(rows.subrange(0, h as int) =~= rows);
    assert(output@ =~= old(output)@ + rle_plane(rows));
    Ok(())
}

} // verus!
