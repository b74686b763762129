//! PackBits run-length encoding of byte rows, as PSD channels use it.

use vstd::prelude::*;

verus! {

/// The run of bytes equal to `row[off]` that starts at `off`, extended from
/// `len` bytes while it stays below 128 bytes and inside the row.
pub open spec fn run_from(row: Seq<u8>, off: int, len: int) -> int
    decreases 128 - len,
{
    if len < 128 && off + len < row.len() && row[off + len] == row[off] {
        run_from(row, off, len + 1)
    } else {
        len
    }
}

/// Length of the run of equal bytes at `off`, at most 128.
pub open spec fn repeat_run(row: Seq<u8>, off: int) -> int {
    run_from(row, off, 1)
}

pub proof fn lemma_run_from(row: Seq<u8>, off: int, len: int)
    requires
        0 <= off,
        1 <= len <= 128,
        off + len <= row.len(),
        forall|i: int| 0 <= i < len ==> #[trigger] row[off + i] == row[off],
    ensures
        len <= run_from(row, off, len) <= 128,
        off + run_from(row, off, len) <= row.len(),
        forall|i: int| 0 <= i < run_from(row, off, len) ==> #[trigger] row[off + i] == row[off],
    decreases 128 - len,
{
    if len < 128 && off + len < row.len() && row[off + len] == row[off] {
        assert forall|i: int| 0 <= i < len + 1 implies #[trigger] row[off + i] == row[off] by {
            if i < len {
                assert(row[off + i] == row[off]);
            }
        }
        lemma_run_from(row, off, len + 1);
    }
}

/// A run holds between one and 128 copies of its first byte and stays in
/// the row.
pub proof fn lemma_repeat_run(row: Seq<u8>, off: int)
    requires
        0 <= off < row.len(),
    ensures
        1 <= repeat_run(row, off) <= 128,
        off + repeat_run(row, off) <= row.len(),
        forall|i: int| 0 <= i < repeat_run(row, off) ==> #[trigger] row[off + i] == row[off],
{
    assert forall|i: int| 0 <= i < 1 implies #[trigger] row[off + i] == row[off] by {
        assert(off + i == off);
    }
    lemma_run_from(row, off, 1);
}

/// Where a literal segment that began at `start` and has reached `cur`
/// ends: before the next run of three or more equal bytes, at 128 bytes, or
/// at the end of the row.
pub open spec fn literal_end(row: Seq<u8>, start: int, cur: int) -> int
    decreases row.len() - cur,
{
    if 0 <= cur < row.len() && start <= cur && cur - start < 128 {
        let next = repeat_run(row, cur);
        if next >= 3 {
            cur
        } else {
            proof {
                lemma_repeat_run(row, cur);
            }
            literal_end(
                row,
                start,
                cur + if next < 128 - (cur - start) {
                    next
                } else {
                    128 - (cur - start)
                },
            )
        }
    } else {
        cur
    }
}

pub proof fn lemma_literal_end(row: Seq<u8>, start: int, cur: int)
    requires
        0 <= start <= cur <= row.len(),
        cur - start <= 128,
    ensures
        cur <= literal_end(row, start, cur) <= row.len(),
        literal_end(row, start, cur) - start <= 128,
    decreases row.len() - cur,
{
    if cur < row.len() && cur - start < 128 {
        let next = repeat_run(row, cur);
        lemma_repeat_run(row, cur);
        if next < 3 {
            let step = if next < 128 - (cur - start) {
                next
            } else {
                128 - (cur - start)
            };
            lemma_literal_end(row, start, cur + step);
        }
    }
}

/// The PackBits encoding of `row[off..]`: a run of three or more equal
/// bytes becomes the header `257 - length` and the byte; other bytes are
/// copied in literal segments of at most 128 bytes behind the header
/// `length - 1`.
pub open spec fn packbits_from(row: Seq<u8>, off: int) -> Seq<u8>
    decreases row.len() - off,
{
    if 0 <= off < row.len() {
        let run = repeat_run(row, off);
        proof {
            lemma_repeat_run(row, off);
        }
        if run >= 3 {
            seq![(257 - run) as u8, row[off]] + packbits_from(row, off + run)
        } else {
            let end = literal_end(row, off, off + run);
            proof {
                lemma_literal_end(row, off, off + run);
            }
            seq![(end - off - 1) as u8] + row.subrange(off, end) + packbits_from(row, end)
        }
    } else {
        Seq::empty()
    }
}

/// The PackBits encoding of a whole row.
pub open spec fn packbits(row: Seq<u8>) -> Seq<u8> {
    packbits_from(row, 0)
}

/// PackBits decoding: a header `h < 128` copies the next `h + 1` bytes, a
/// header `h > 128` repeats the next byte `257 - h` times, and the header
/// 128 is skipped.
pub open spec fn unpackbits(encoded: Seq<u8>) -> Seq<u8>
    decreases encoded.len(),
{
    if encoded.len() == 0 {
        Seq::empty()
    } else {
        let h = encoded[0] as int;
        if h < 128 {
            if h + 2 <= encoded.len() {
                encoded.subrange(1, h + 2) + unpackbits(encoded.subrange(h + 2, encoded.len() as int))
            } else {
                encoded.subrange(1, encoded.len() as int)
            }
        } else if h > 128 {
            if encoded.len() >= 2 {
                Seq::new((257 - h) as nat, |i: int| encoded[1]) + unpackbits(
                    encoded.subrange(2, encoded.len() as int),
                )
            } else {
                Seq::empty()
            }
        } else {
            unpackbits(encoded.subrange(1, encoded.len() as int))
        }
    }
}

pub(crate) proof fn lemma_unpack_from(row: Seq<u8>, off: int)
    requires
        0 <= off <= row.len(),
    ensures
        unpackbits(packbits_from(row, off)) == row.subrange(off, row.len() as int),
        packbits_from(row, off).len() <= 2 * (row.len() - off),
    decreases row.len() - off,
{
    if off < row.len() {
        let run = repeat_run(row, off);
        lemma_repeat_run(row, off);
        let enc = packbits_from(row, off);
        if run >= 3 {
            let rest = packbits_from(row, off + run);
            lemma_unpack_from(row, off + run);
            assert(enc.subrange(2, enc.len() as int) =~= rest);
            assert(enc[1] == row[off]);
            assert forall|i: int| 0 <= i < run implies #[trigger] row.subrange(off, off + run)[i]
                == enc[1] by {
                assert(row[off + i] == row[off]);
            }
            assert(Seq::new(run as nat, |i: int| enc[1]) =~= row.subrange(off, off + run));
            assert(row.subrange(off, off + run) + row.subrange(off + run, row.len() as int)
                =~= row.subrange(off, row.len() as int));
        } else {
            let end = literal_end(row, off, off + run);
            lemma_literal_end(row, off, off + run);
            let rest = packbits_from(row, end);
            lemma_unpack_from(row, end);
            let h = end - off - 1;
            assert(enc[0] as int == h);
            assert(enc.subrange(1, h + 2) =~= row.subrange(off, end));
            assert(enc.subrange(h + 2, enc.len() as int) =~= rest);
            assert(row.subrange(off, end) + row.subrange(end, row.len() as int) =~= row.subrange(
                off,
                row.len() as int,
            ));
        }
    } else {
        assert(row.subrange(off, row.len() as int) =~= Seq::<u8>::empty());
    }
}

/// Decoding the PackBits encoding of a row gives the row back, and the
/// encoding is at most twice as long as the row.
pub proof fn lemma_packbits_round_trip(row: Seq<u8>)
    ensures
        unpackbits(packbits(row)) == row,
        packbits(row).len() <= 2 * row.len(),
{
    lemma_unpack_from(row, 0);
    assert(row.subrange(0, row.len() as int) =~= row);
}

/// Every byte `v` of `row` replaced by `255 - v`.
pub open spec fn inverted(row: Seq<u8>) -> Seq<u8> {
    Seq::new(row.len(), |i: int| (255 - row[i]) as u8)
}

pub(crate) proof fn lemma_run_from_inverted(row: Seq<u8>, off: int, len: int)
    requires
        0 <= off < row.len(),
        0 <= len,
    ensures
        run_from(inverted(row), off, len) == run_from(row, off, len),
    decreases 128 - len,
{
    let inv = inverted(row);
    if len < 128 && off + len < row.len() {
        assert((inv[off + len] == inv[off]) == (row[off + len] == row[off]));
        lemma_run_from_inverted(row, off, len + 1);
    }
}

pub(crate) proof fn lemma_literal_end_inverted(row: Seq<u8>, start: int, cur: int)
    ensures
        literal_end(inverted(row), start, cur) == literal_end(row, start, cur),
    decreases row.len() - cur,
{
    if 0 <= cur < row.len() && start <= cur && cur - start < 128 {
        lemma_run_from_inverted(row, cur, 1);
        lemma_repeat_run(row, cur);
        let next = repeat_run(row, cur);
        if next < 3 {
            let step = if next < 128 - (cur - start) {
                next
            } else {
                128 - (cur - start)
            };
            lemma_literal_end_inverted(row, start, cur + step);
        }
    }
}

pub(crate) proof fn lemma_packbits_from_inverted(row: Seq<u8>, off: int)
    ensures
        packbits_from(inverted(row), off).len() == packbits_from(row, off).len(),
    decreases row.len() - off,
{
    if 0 <= off < row.len() {
        lemma_run_from_inverted(row, off, 1);
        lemma_repeat_run(row, off);
        let run = repeat_run(row, off);
        if run >= 3 {
            lemma_packbits_from_inverted(row, off + run);
        } else {
            lemma_literal_end_inverted(row, off, off + run);
            lemma_literal_end(row, off, off + run);
            let end = literal_end(row, off, off + run);
            lemma_packbits_from_inverted(row, end);
        }
    }
}

/// Inverting every byte of a row keeps the size of its PackBits encoding:
/// equal bytes stay equal and different bytes stay different.
pub proof fn lemma_packbits_inverted_len(row: Seq<u8>)
    ensures
        packbits(inverted(row)).len() == packbits(row).len(),
{
    lemma_packbits_from_inverted(row, 0);
}

/// Length of the run of bytes equal to `row[offset]` at `offset`, at most
/// 128.
pub(crate) fn repeated_run_len(row: &[u8], offset: usize) -> (r: usize)
    requires
        offset < row@.len(),
    ensures
        r == repeat_run(row@, offset as int),
        1 <= r <= 128,
        offset + r <= row@.len(),
{
    proof {
        lemma_repeat_run(row@, offset as int);
    }
    let value = row[offset];
    let n = row.len();
    let mut length: usize = 1;
    while length < 128 && offset + length < n && row[offset + length] == value
        invariant
            n == row@.len(),
            1 <= length <= 128,
            offset < row@.len(),
            offset + length <= row@.len(),
            value == row@[offset as int],
            run_from(row@, offset as int, length as int) == repeat_run(row@, offset as int),
        decreases 128 - length,
    {
        length = length + 1;
    }
    length
}

/// Where the literal segment that starts at `start` with `run` bytes ends.
pub(crate) fn literal_segment_end(row: &[u8], start: usize, run: usize) -> (r: usize)
    requires
        start < row@.len(),
        run == repeat_run(row@, start as int),
        run < 3,
    ensures
        r == literal_end(row@, start as int, start + run),
        start < r <= row@.len(),
        r - start <= 128,
{
    proof {
        lemma_repeat_run(row@, start as int);
        lemma_literal_end(row@, start as int, start + run);
    }
    let n = row.len();
    let mut offset = start + run;
    while offset < n && offset - start < 128
        invariant
            n == row@.len(),
            start < offset <= row@.len(),
            offset - start <= 128,
            literal_end(row@, start as int, offset as int) == literal_end(
                row@,
                start as int,
                start + run,
            ),
        ensures
            start < offset <= row@.len(),
            offset - start <= 128,
            literal_end(row@, start as int, offset as int) == offset,
            literal_end(row@, start as int, offset as int) == literal_end(
                row@,
                start as int,
                start + run,
            ),
        decreases row@.len() - offset,
    {
        let next_run = repeated_run_len(row, offset);
        if next_run >= 3 {
            break;
        }
        let room = 128 - (offset - start);
        offset = offset + if next_run < room {
            next_run
        } else {
            room
        };
    }
    offset
}

/// Size of the PackBits encoding of `row`, which (like every slice) holds
/// at most `isize::MAX` bytes.
pub fn packbits_row_len(row: &[u8]) -> (r: usize)
    requires
        row@.len() <= isize::MAX,
    ensures
        r == packbits(row@).len(),
{
    let mut encoded: usize = 0;
    let mut offset: usize = 0;
    while offset < row.len()
        invariant
            offset <= row@.len(),
            row@.len() <= isize::MAX,
            encoded + packbits_from(row@, offset as int).len() == packbits(row@).len(),
            encoded <= 2 * offset,
        decreases row@.len() - offset,
    {
        let run = repeated_run_len(row, offset);
        if run >= 3 {
            encoded = encoded + 2;
            offset = offset + run;
        } else {
            let end = literal_segment_end(row, offset, run);
            encoded = encoded + 1 + (end - offset);
            offset = end;
        }
    }
    encoded
}

/// Appends the PackBits encoding of `row`.
pub fn write_packbits_row(output: &mut Vec<u8>, row: &[u8])
    ensures
        final(output)@ == old(output)@ + packbits(row@),
{
    let mut offset: usize = 0;
    while offset < row.len()
        invariant
            offset <= row@.len(),
            output@ + packbits_from(row@, offset as int) == old(output)@ + packbits(row@),
        decreases row@.len() - offset,
    {
        let ghost before = output@;
        let run = repeated_run_len(row, offset);
        if run >= 3 {
            output.push((257 - run) as u8);
            output.push(row[offset]);
            proof {
                assert(output@ + packbits_from(row@, offset + run) =~= before + packbits_from(
                    row@,
                    offset as int,
                ));
            }
            offset = offset + run;
        } else {
            let end = literal_segment_end(row, offset, run);
            output.push((end - offset - 1) as u8);
            let mut i = offset;
            while i < end
                invariant
                    offset <= i <= end <= row@.len(),
                    output@ == before.push((end - offset - 1) as u8) + row@.subrange(
                        offset as int,
                        i as int,
                    ),
                decreases end - i,
            {
                output.push(row[i]);
                i = i + 1;
                assert(output@ =~= before.push((end - offset - 1) as u8) + row@.subrange(
                    offset as int,
                    i as int,
                ));
            }
            proof {
                assert(output@ + packbits_from(row@, end as int) =~= before + packbits_from(
                    row@,
                    offset as int,
                ));
            }
            offset = end;
        }
    }
    assert(packbits_from(row@, offset as int) =~= Seq::<u8>::empty());
}

} // verus!
