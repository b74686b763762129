//! A small PNG serialiser for eight-bit straight-alpha RGBA images. The image
//! data travels in stored (uncompressed) DEFLATE blocks inside a zlib stream.

use vstd::prelude::*;

use crate::bytes::{be32, le16, push_slice, push_u16_le, push_u32_be};
use crate::text::{append_decimal, append_str, decimal};

verus! {

/// Largest payload of one stored DEFLATE block.
pub const STORED_BLOCK_MAX: usize = 65535;

/// The eight-byte PNG file signature.
pub open spec fn png_signature() -> Seq<u8> {
    seq![137u8, 80u8, 78u8, 71u8, 13u8, 10u8, 26u8, 10u8]
}

/// One step of the reflected CRC-32 (polynomial 0xedb88320) on one bit.
pub open spec fn crc_bit(c: u32) -> u32 {
    if c & 1 == 1 {
        (c >> 1u32) ^ 0xedb8_8320u32
    } else {
        c >> 1u32
    }
}

/// `n` CRC-32 bit steps.
pub open spec fn crc_bits(c: u32, n: nat) -> u32
    decreases n,
{
    if n == 0 {
        c
    } else {
        crc_bit(crc_bits(c, (n - 1) as nat))
    }
}

/// The CRC-32 register after one byte.
pub open spec fn crc_byte(c: u32, b: u8) -> u32 {
    crc_bits(c ^ (b as u32), 8)
}

/// The CRC-32 register after the bytes `s`, starting from register `c`.
pub open spec fn crc_fold(c: u32, s: Seq<u8>) -> u32
    decreases s.len(),
{
    if s.len() == 0 {
        c
    } else {
        crc_byte(crc_fold(c, s.drop_last()), s.last())
    }
}

/// The CRC-32 of `s` as PNG uses it.
pub open spec fn crc32(s: Seq<u8>) -> u32 {
    !crc_fold(0xffff_ffffu32, s)
}

/// Feeding `a` then `b` leaves the register that feeding `a + b` does.
pub proof fn lemma_crc_fold_append(c: u32, a: Seq<u8>, b: Seq<u8>)
    ensures
        crc_fold(c, a + b) == crc_fold(crc_fold(c, a), b),
    decreases b.len(),
{
    if b.len() == 0 {
        assert(a + b =~= a);
    } else {
        lemma_crc_fold_append(c, a, b.drop_last());
        assert((a + b).drop_last() =~= a + b.drop_last());
        assert((a + b).last() == b.last());
    }
}

/// Number of stored blocks that carry `n` bytes.
pub open spec fn block_count(n: nat) -> nat {
    (n + 65534) / 65535
}

/// Stored DEFLATE block `i` of `raw`: a header byte that is 1 on the last
/// block, the payload length and its complement (both little-endian), then
/// the payload, up to 65535 bytes starting at `i * 65535`.
pub open spec fn stored_block(raw: Seq<u8>, i: nat) -> Seq<u8> {
    let start = (i * 65535) as int;
    let end = if (i + 1) * 65535 < raw.len() {
        ((i + 1) * 65535) as int
    } else {
        raw.len() as int
    };
    let last: u8 = if (i + 1) * 65535 >= raw.len() {
        1
    } else {
        0
    };
    seq![last] + le16(end - start) + le16(65535 - (end - start)) + raw.subrange(start, end)
}

/// Stored blocks `from` up to (not including) `to` of `raw`, in order.
pub open spec fn stored_blocks(raw: Seq<u8>, from: nat, to: nat) -> Seq<u8>
    decreases to,
{
    if to <= from {
        Seq::empty()
    } else {
        stored_blocks(raw, from, (to - 1) as nat) + stored_block(raw, (to - 1) as nat)
    }
}

/// The zlib stream that stores `raw` uncompressed: the header bytes
/// `78 01`, every stored block, and the big-endian Adler-32 of `raw`.
pub open spec fn zlib_stored(raw: Seq<u8>) -> Seq<u8> {
    seq![0x78u8, 0x01u8] + stored_blocks(raw, 0, block_count(raw.len())) + be32(adler32(raw))
}

/// A PNG chunk: big-endian data length, kind, data, and the CRC-32 of kind
/// and data.
pub open spec fn png_chunk(kind: Seq<u8>, data: Seq<u8>) -> Seq<u8> {
    be32(data.len() as int) + kind + data + be32(crc32(kind + data) as int)
}

pub open spec fn ihdr_kind() -> Seq<u8> {
    seq![73u8, 72u8, 68u8, 82u8]
}

pub open spec fn idat_kind() -> Seq<u8> {
    seq![73u8, 68u8, 65u8, 84u8]
}

pub open spec fn iend_kind() -> Seq<u8> {
    seq![73u8, 69u8, 78u8, 68u8]
}

/// IHDR data: width, height, bit depth 8, colour type 6 (RGBA), default
/// compression and filter, no interlacing.
pub open spec fn ihdr_data(width: int, height: int) -> Seq<u8> {
    be32(width) + be32(height) + seq![8u8, 6u8, 0u8, 0u8, 0u8]
}

/// The filtered scanlines of the first `rows` rows: each row of `row_bytes`
/// pixel bytes behind the filter byte 0 (no filter).
pub open spec fn scanlines(pixels: Seq<u8>, row_bytes: nat, rows: nat) -> Seq<u8>
    decreases rows,
{
    if rows == 0 {
        Seq::empty()
    } else {
        scanlines(pixels, row_bytes, (rows - 1) as nat) + seq![0u8] + pixels.subrange(
            (rows - 1) * row_bytes,
            (rows * row_bytes) as int,
        )
    }
}

/// The signature and IHDR chunk that open the PNG stream.
pub open spec fn png_head(width: int, height: int) -> Seq<u8> {
    png_signature() + png_chunk(ihdr_kind(), ihdr_data(width, height))
}

/// The complete PNG stream of a `width` x `height` RGBA image.
pub open spec fn png_image(width: nat, height: nat, pixels: Seq<u8>) -> Seq<u8> {
    png_head(width as int, height as int) + png_chunk(
        idat_kind(),
        zlib_stored(scanlines(pixels, width * 4, height)),
    ) + png_chunk(iend_kind(), Seq::empty())
}

/// The IDAT data length that a stream of `n` scanline bytes needs: the bytes
/// themselves, five header bytes per stored block, and six bytes of zlib
/// header and checksum.
pub open spec fn idat_len(n: nat) -> int {
    (n + 5 * block_count(n) + 6) as int
}

/// Why the input is refused before anything is written, if it is.
pub open spec fn png_input_error(width: int, height: int, len: int) -> Option<Seq<char>> {
    if width == 0 || height == 0 {
        Some("PNG dimensions must be nonzero"@)
    } else if width * 4 > usize::MAX {
        Some("PNG row size overflow"@)
    } else if width * 4 * height > usize::MAX {
        Some("PNG image size overflow"@)
    } else if len != width * 4 * height {
        Some(
            "PNG pixel length mismatch: expected "@ + decimal((width * 4 * height) as nat)
                + ", found "@ + decimal(len as nat),
        )
    } else {
        None
    }
}

/// Why the image data cannot be framed, if it cannot; this is found after
/// the signature and IHDR chunk are written.
pub open spec fn png_idat_error(width: int, height: int) -> Option<Seq<char>> {
    let n = (width * 4 + 1) * height;
    if n > usize::MAX {
        Some("PNG scanline size overflow"@)
    } else if idat_len(n as nat) > usize::MAX {
        Some("PNG IDAT size overflow"@)
    } else if idat_len(n as nat) > u32::MAX {
        Some("PNG IDAT exceeds u32 length"@)
    } else {
        None
    }
}

/// Blocks `a..b` followed by blocks `b..c` are blocks `a..c`.
pub proof fn lemma_stored_blocks_split(raw: Seq<u8>, a: nat, b: nat, c: nat)
    requires
        a <= b <= c,
    ensures
        stored_blocks(raw, a, b) + stored_blocks(raw, b, c) == stored_blocks(raw, a, c),
    decreases c,
{
    if c == b {
        assert(stored_blocks(raw, a, b) + stored_blocks(raw, b, c) =~= stored_blocks(raw, a, c));
    } else {
        lemma_stored_blocks_split(raw, a, b, (c - 1) as nat);
        assert(stored_blocks(raw, a, b) + stored_blocks(raw, b, c) =~= stored_blocks(
            raw,
            a,
            (c - 1) as nat,
        ) + stored_block(raw, (c - 1) as nat));
    }
}

proof fn lemma_stored_blocks_one(raw: Seq<u8>, k: nat)
    ensures
        stored_blocks(raw, k, k + 1) == stored_block(raw, k),
{
    assert(stored_blocks(raw, k, k) =~= Seq::<u8>::empty());
    assert(stored_blocks(raw, k, k + 1) =~= stored_block(raw, k));
}

/// The first `k` blocks hold `5 * k` header bytes and the first
/// `min(k * 65535, n)` bytes of `raw`.
proof fn lemma_stored_blocks_len(raw: Seq<u8>, k: nat)
    requires
        k <= block_count(raw.len()),
    ensures
        stored_blocks(raw, 0, k).len() == 5 * k + if k * 65535 < raw.len() {
            k * 65535
        } else {
            raw.len()
        },
    decreases k,
{
    if k > 0 {
        lemma_stored_blocks_len(raw, (k - 1) as nat);
        assert((k - 1) * 65535 < raw.len());
    }
}

/// The IDAT length that the stream announces equals the length of the zlib
/// stream that follows it.
pub proof fn lemma_zlib_stored_len(raw: Seq<u8>)
    ensures
        zlib_stored(raw).len() == idat_len(raw.len()),
{
    let k = block_count(raw.len());
    lemma_stored_blocks_len(raw, k);
    assert(k * 65535 >= raw.len());
}

/// A running CRC-32 over the bytes fed to it.
pub struct Crc32 {
    register: u32,
    fed: Ghost<Seq<u8>>,
}

impl Crc32 {
    /// The bytes fed so far.
    pub closed spec fn seen(&self) -> Seq<u8> {
        self.fed@
    }

    pub closed spec fn wf(&self) -> bool {
        self.register == crc_fold(0xffff_ffffu32, self.fed@)
    }

    pub fn new() -> (r: Self)
        ensures
            r.wf(),
            r.seen() == Seq::<u8>::empty(),
    {
        Crc32 { register: 0xffff_ffff, fed: Ghost(Seq::empty()) }
    }

    pub fn update(&mut self, input: &[u8])
        requires
            old(self).wf(),
        ensures
            final(self).wf(),
            final(self).seen() == old(self).seen() + input@,
    {
        let ghost before = self.fed@;
        let mut i: usize = 0;
        while i < input.len()
            invariant
                i <= input@.len(),
                self.fed@ == before,
                self.register == crc_fold(0xffff_ffffu32, before + input@.subrange(0, i as int)),
            decreases input@.len() - i,
        {
            let ghost reg = self.register;
            let mut c = self.register ^ (input[i] as u32);
            let mut k: usize = 0;
            while k < 8
                invariant
                    k <= 8,
                    c == crc_bits(reg ^ (input@[i as int] as u32), k as nat),
                decreases 8 - k,
            {
                c = if c & 1 == 1 {
                    (c >> 1) ^ 0xedb8_8320
                } else {
                    c >> 1
                };
                k = k + 1;
            }
            self.register = c;
            proof {
                let p = before + input@.subrange(0, i + 1);
                assert(p.drop_last() =~= before + input@.subrange(0, i as int));
                assert(p.last() == input@[i as int]);
            }
            i = i + 1;
        }
        assert(before + input@.subrange(0, input@.len() as int) =~= before + input@);
        self.fed = Ghost(before + input@);
    }

    pub fn finish(&self) -> (r: u32)
        requires
            self.wf(),
        ensures
            r == crc32(self.seen()),
    {
        !self.register
    }
}

/// The Adler-32 sums `(a, b)` after the bytes `s`.
pub open spec fn adler_fold(s: Seq<u8>) -> (int, int)
    decreases s.len(),
{
    if s.len() == 0 {
        (1, 0)
    } else {
        let (a, b) = adler_fold(s.drop_last());
        let a2 = (a + s.last()) % 65521;
        (a2, (b + a2) % 65521)
    }
}

/// The Adler-32 checksum of `s`.
pub open spec fn adler32(s: Seq<u8>) -> int {
    adler_fold(s).1 * 65536 + adler_fold(s).0
}

proof fn lemma_adler_bounds(s: Seq<u8>)
    ensures
        0 <= adler_fold(s).0 < 65521,
        0 <= adler_fold(s).1 < 65521,
    decreases s.len(),
{
    if s.len() > 0 {
        lemma_adler_bounds(s.drop_last());
    }
}

/// A running Adler-32 checksum over the bytes fed to it.
pub struct Adler32 {
    a: u32,
    b: u32,
    fed: Ghost<Seq<u8>>,
}

impl Adler32 {
    /// The bytes fed so far.
    pub closed spec fn seen(&self) -> Seq<u8> {
        self.fed@
    }

    pub closed spec fn wf(&self) -> bool {
        (self.a as int, self.b as int) == adler_fold(self.fed@)
    }

    pub fn new() -> (r: Self)
        ensures
            r.wf(),
            r.seen() == Seq::<u8>::empty(),
    {
        Adler32 { a: 1, b: 0, fed: Ghost(Seq::empty()) }
    }

    fn update_byte(&mut self, byte: u8)
        requires
            old(self).wf(),
        ensures
            final(self).wf(),
            final(self).seen() == old(self).seen().push(byte),
    {
        proof {
            lemma_adler_bounds(self.fed@);
        }
        self.a = (self.a + byte as u32) % 65521;
        self.b = (self.b + self.a) % 65521;
        let ghost s = self.fed@.push(byte);
        assert(s.drop_last() =~= self.fed@);
        self.fed = Ghost(s);
    }

    pub fn update(&mut self, input: &[u8])
        requires
            old(self).wf(),
        ensures
            final(self).wf(),
            final(self).seen() == old(self).seen() + input@,
    {
        let mut i: usize = 0;
        while i < input.len()
            invariant
                i <= input@.len(),
                self.wf(),
                self.seen() == old(self).seen() + input@.subrange(0, i as int),
            decreases input@.len() - i,
        {
            self.update_byte(input[i]);
            i = i + 1;
            assert(self.seen() =~= old(self).seen() + input@.subrange(0, i as int));
        }
        assert(input@.subrange(0, input@.len() as int) =~= input@);
    }

    pub fn finish(&self) -> (r: u32)
        requires
            self.wf(),
        ensures
            r as int == adler32(self.seen()),
    {
        proof {
            lemma_adler_bounds(self.fed@);
        }
        self.b * 65536 + self.a
    }
}


/// Appends `data` to the output and feeds it to the running CRC.
fn write_crc(output: &mut Vec<u8>, crc: &mut Crc32, data: &[u8])
    requires
        old(crc).wf(),
    ensures
        final(output)@ == old(output)@ + data@,
        final(crc).wf(),
        final(crc).seen() == old(crc).seen() + data@,
{
    push_slice(output, data);
    crc.update(data);
}

/// Frames the bytes of a known stream `raw` into stored DEFLATE blocks as
/// they arrive, keeping their Adler-32.
struct StoredZlibWriter {
    block: Vec<u8>,
    raw_written: usize,
    raw_len: usize,
    adler: Adler32,
    raw: Ghost<Seq<u8>>,
}

impl StoredZlibWriter {
    /// Bytes of `raw` already emitted in complete blocks.
    spec fn flushed(&self) -> int {
        self.raw_written - self.block@.len()
    }

    /// Everything but the bound on the pending block.
    spec fn wf_pending(&self) -> bool {
        &&& self.raw_len == self.raw@.len()
        &&& self.raw_written <= self.raw_len
        &&& self.block@.len() <= STORED_BLOCK_MAX
        &&& self.block@.len() <= self.raw_written
        &&& (self.flushed() % 65535 == 0 || self.flushed() == self.raw_len)
        &&& self.block@ == self.raw@.subrange(self.flushed(), self.raw_written as int)
        &&& self.adler.wf()
        &&& self.adler.seen() == self.raw@.subrange(0, self.raw_written as int)
    }

    spec fn wf(&self) -> bool {
        self.wf_pending() && self.block@.len() < STORED_BLOCK_MAX
    }

    /// Index of the next block to emit.
    spec fn next_block(&self) -> nat {
        block_count(self.flushed() as nat)
    }

    fn new(raw_len: usize, Ghost(raw): Ghost<Seq<u8>>) -> (r: Self)
        requires
            raw.len() == raw_len,
        ensures
            r.wf(),
            r.raw@ == raw,
            r.raw_written == 0,
            r.next_block() == 0,
    {
        let r = StoredZlibWriter {
            block: Vec::new(),
            raw_written: 0,
            raw_len,
            adler: Adler32::new(),
            raw: Ghost(raw),
        };
        assert(raw.subrange(0, 0) =~= Seq::<u8>::empty());
        r
    }

    /// Emits the pending block, which is full or ends the stream.
    fn flush_block(&mut self, output: &mut Vec<u8>, crc: &mut Crc32)
        requires
            old(self).wf_pending(),
            old(crc).wf(),
            old(self).block@.len() > 0,
            old(self).block@.len() == STORED_BLOCK_MAX || old(self).raw_written == old(self).raw_len,
        ensures
            final(self).wf(),
            final(self).raw == old(self).raw,
            final(self).raw_written == old(self).raw_written,
            final(self).block@.len() == 0,
            final(self).next_block() == old(self).next_block() + 1,
            final(output)@ == old(output)@ + stored_block(old(self).raw@, old(self).next_block()),
            final(crc).wf(),
            final(crc).seen() == old(crc).seen() + stored_block(old(self).raw@, old(self).next_block()),
    {
        let last: u8 = if self.raw_written == self.raw_len {
            1
        } else {
            0
        };
        let length = self.block.len() as u16;
        let mut header: Vec<u8> = Vec::new();
        header.push(last);
        push_u16_le(&mut header, length);
        push_u16_le(&mut header, 65535 - length);
        write_crc(output, crc, header.as_slice());
        write_crc(output, crc, self.block.as_slice());
        proof {
            let raw = self.raw@;
            let i = self.next_block();
            let f = self.flushed();
            assert(f % 65535 == 0);
            assert(i * 65535 == f);
            assert(header@ + self.block@ =~= stored_block(raw, i));
        }
        self.block.clear();
        assert(self.block@ =~= self.raw@.subrange(self.flushed(), self.raw_written as int));
    }

    /// Feeds `input[start..end]`, the next bytes of `raw`.
    fn write_raw(
        &mut self,
        output: &mut Vec<u8>,
        crc: &mut Crc32,
        input: &[u8],
        start: usize,
        end: usize,
    )
        requires
            old(self).wf(),
            old(crc).wf(),
            start <= end <= input@.len(),
            old(self).raw_written + (end - start) <= old(self).raw_len,
            input@.subrange(start as int, end as int) == old(self).raw@.subrange(
                old(self).raw_written as int,
                old(self).raw_written + (end - start),
            ),
        ensures
            final(self).wf(),
            final(self).raw == old(self).raw,
            final(self).raw_written == old(self).raw_written + (end - start),
            final(output)@ == old(output)@ + stored_blocks(
                old(self).raw@,
                old(self).next_block(),
                final(self).next_block(),
            ),
            final(crc).wf(),
            final(crc).seen() == old(crc).seen() + stored_blocks(
                old(self).raw@,
                old(self).next_block(),
                final(self).next_block(),
            ),
            old(self).next_block() <= final(self).next_block(),
    {
        let ghost raw = self.raw@;
        let ghost k0 = self.next_block();
        let ghost w0 = self.raw_written;
        let mut pos = start;
        while pos < end
            invariant
                self.wf(),
                crc.wf(),
                self.raw@ == raw,
                start <= pos <= end <= input@.len(),
                self.raw_written == w0 + (pos - start),
                w0 + (end - start) <= self.raw_len,
                input@.subrange(start as int, end as int) == raw.subrange(
                    w0 as int,
                    w0 + (end - start),
                ),
                k0 <= self.next_block(),
                output@ == old(output)@ + stored_blocks(raw, k0, self.next_block()),
                crc.seen() == old(crc).seen() + stored_blocks(raw, k0, self.next_block()),
            decreases end - pos,
        {
            let byte = input[pos];
            proof {
                assert(input@.subrange(start as int, end as int)[pos - start] == byte);
                assert(raw[self.raw_written as int] == byte);
            }
            let ghost k1 = self.next_block();
            self.block.push(byte);
            self.adler.update_byte(byte);
            self.raw_written = self.raw_written + 1;
            pos = pos + 1;
            proof {
                assert(self.block@ =~= raw.subrange(self.flushed(), self.raw_written as int));
                assert(self.adler.seen() =~= raw.subrange(0, self.raw_written as int));
            }
            if self.block.len() == STORED_BLOCK_MAX {
                self.flush_block(output, crc);
                proof {
                    lemma_stored_blocks_split(raw, k0, k1, k1 + 1);
                    lemma_stored_blocks_one(raw, k1);
                    assert(output@ =~= old(output)@ + stored_blocks(raw, k0, self.next_block()));
                    assert(crc.seen() =~= old(crc).seen() + stored_blocks(
                        raw,
                        k0,
                        self.next_block(),
                    ));
                }
            }
        }
    }

    /// Emits the last, partial block if one is pending; returns the Adler-32
    /// of the whole stream.
    fn finish(&mut self, output: &mut Vec<u8>, crc: &mut Crc32) -> (r: u32)
        requires
            old(self).wf(),
            old(crc).wf(),
            old(self).raw_written == old(self).raw_len,
        ensures
            r as int == adler32(old(self).raw@),
            final(output)@ == old(output)@ + stored_blocks(
                old(self).raw@,
                old(self).next_block(),
                block_count(old(self).raw@.len()),
            ),
            final(crc).wf(),
            final(crc).seen() == old(crc).seen() + stored_blocks(
                old(self).raw@,
                old(self).next_block(),
                block_count(old(self).raw@.len()),
            ),
    {
        let ghost raw = self.raw@;
        let ghost k = self.next_block();
        let ghost n = raw.len();
        if self.block.len() > 0 {
            self.flush_block(output, crc);
            proof {
                lemma_stored_blocks_one(raw, k);
            }
        } else {
            proof {
                assert(block_count(n) == k);
                assert(stored_blocks(raw, k, k) =~= Seq::<u8>::empty());
                assert(output@ =~= old(output)@ + Seq::<u8>::empty());
                assert(crc.seen() =~= old(crc).seen() + Seq::<u8>::empty());
            }
        }
        assert(raw.subrange(0, n as int) =~= raw);
        self.adler.finish()
    }
}


proof fn lemma_scanlines_len(pixels: Seq<u8>, row_bytes: nat, rows: nat)
    requires
        rows * row_bytes <= pixels.len(),
    ensures
        scanlines(pixels, row_bytes, rows).len() == rows * (row_bytes + 1),
    decreases rows,
{
    if rows > 0 {
        let r1 = (rows - 1) as nat;
        assert(r1 * row_bytes + row_bytes == rows * row_bytes) by (nonlinear_arith)
            requires
                r1 + 1 == rows,
        ;
        assert(r1 * (row_bytes + 1) + row_bytes + 1 == rows * (row_bytes + 1))
            by (nonlinear_arith)
            requires
                r1 + 1 == rows,
        ;
        lemma_scanlines_len(pixels, row_bytes, r1);
        let row = pixels.subrange(r1 * row_bytes as int, rows * row_bytes as int);
        assert(row.len() == row_bytes);
        assert(scanlines(pixels, row_bytes, rows) == scanlines(pixels, row_bytes, r1) + seq![0u8]
            + row);
    } else {
        assert(rows * (row_bytes + 1) == 0) by (nonlinear_arith)
            requires
                rows == 0,
        ;
    }
}

/// The scanlines of the first `r` rows open those of the first `h` rows.
proof fn lemma_scanlines_prefix(pixels: Seq<u8>, row_bytes: nat, r: nat, h: nat)
    requires
        r <= h,
        h * row_bytes <= pixels.len(),
    ensures
        scanlines(pixels, row_bytes, h).subrange(0, (r * (row_bytes + 1)) as int)
            == scanlines(pixels, row_bytes, r),
    decreases h,
{
    assert(r * row_bytes <= h * row_bytes) by (nonlinear_arith)
        requires
            r <= h,
    ;
    lemma_scanlines_len(pixels, row_bytes, h);
    lemma_scanlines_len(pixels, row_bytes, r);
    if r == h {
        assert(scanlines(pixels, row_bytes, h).subrange(0, (r * (row_bytes + 1)) as int)
            =~= scanlines(pixels, row_bytes, r));
    } else {
        assert((h - 1) * row_bytes <= h * row_bytes) by (nonlinear_arith)
            requires
                h >= 1,
        ;
        lemma_scanlines_prefix(pixels, row_bytes, r, (h - 1) as nat);
        lemma_scanlines_len(pixels, row_bytes, (h - 1) as nat);
        assert(r * (row_bytes + 1) <= (h - 1) * (row_bytes + 1)) by (nonlinear_arith)
            requires
                r <= h - 1,
        ;
        assert(scanlines(pixels, row_bytes, h).subrange(0, (r * (row_bytes + 1)) as int)
            =~= scanlines(pixels, row_bytes, (h - 1) as nat).subrange(0, (r * (row_bytes + 1)) as int));
    }
}

/// Row `r` of the scanlines: the filter byte 0 at `r * (rb + 1)`, then the
/// row's `rb` pixel bytes.
proof fn lemma_scanline_row(pixels: Seq<u8>, rb: int, r: int, h: int)
    requires
        0 <= r < h,
        0 <= rb,
        h * rb <= pixels.len(),
    ensures
        (r + 1) * rb <= h * rb,
        (r + 1) * (rb + 1) <= h * (rb + 1),
        (r + 1) * rb == r * rb + rb,
        (r + 1) * (rb + 1) == r * (rb + 1) + rb + 1,
        scanlines(pixels, rb as nat, h as nat).len() == h * (rb + 1),
        scanlines(pixels, rb as nat, h as nat).subrange(r * (rb + 1), r * (rb + 1) + 1) == seq![0u8],
        scanlines(pixels, rb as nat, h as nat).subrange(r * (rb + 1) + 1, r * (rb + 1) + 1 + rb)
            == pixels.subrange(r * rb, r * rb + rb),
{
    assert((r + 1) * rb <= h * rb) by (nonlinear_arith)
        requires
            r + 1 <= h,
            0 <= rb,
    ;
    assert((r + 1) * (rb + 1) <= h * (rb + 1)) by (nonlinear_arith)
        requires
            r + 1 <= h,
            0 <= rb,
    ;
    assert((r + 1) * rb == r * rb + rb) by (nonlinear_arith);
    assert((r + 1) * (rb + 1) == r * (rb + 1) + rb + 1) by (nonlinear_arith);
    assert(0 <= r * rb) by (nonlinear_arith)
        requires
            0 <= r,
            0 <= rb,
    ;
    let row_bytes = rb as nat;
    let rn = r as nat;
    let hn = h as nat;
    lemma_scanlines_prefix(pixels, row_bytes, rn + 1, hn);
    lemma_scanlines_len(pixels, row_bytes, rn);
    lemma_scanlines_len(pixels, row_bytes, hn);
    let raw = scanlines(pixels, row_bytes, hn);
    let line = scanlines(pixels, row_bytes, rn + 1);
    let rw = r * (rb + 1);
    let len = (r + 1) * (rb + 1);
    assert(raw.subrange(0, len) == line);
    assert(line == scanlines(pixels, row_bytes, rn) + seq![0u8] + pixels.subrange(r * rb, r * rb + rb));
    assert forall|k: int| 0 <= k < rb + 1 implies #[trigger] raw[rw + k] == line[rw + k] by {
        assert(raw.subrange(0, len)[rw + k] == raw[rw + k]);
    }
    assert(raw.subrange(rw, rw + 1) =~= seq![0u8]) by {
        assert(raw[rw + 0] == line[rw + 0]);
    }
    assert(raw.subrange(rw + 1, rw + 1 + rb) =~= pixels.subrange(r * rb, r * rb + rb)) by {
        assert forall|k: int| 0 <= k < rb implies #[trigger] raw.subrange(rw + 1, rw + 1 + rb)[k]
            == pixels.subrange(r * rb, r * rb + rb)[k] by {
            assert(raw[rw + (k + 1)] == line[rw + (k + 1)]);
        }
    }
}

/// Why an image whose scanlines take `n` bytes cannot be framed, if it
/// cannot.
pub open spec fn idat_error(n: int) -> Option<Seq<char>> {
    if n > usize::MAX {
        Some("PNG scanline size overflow"@)
    } else if idat_len(n as nat) > usize::MAX {
        Some("PNG IDAT size overflow"@)
    } else if idat_len(n as nat) > u32::MAX {
        Some("PNG IDAT exceeds u32 length"@)
    } else {
        None
    }
}

/// Appends one complete PNG chunk.
fn write_chunk(output: &mut Vec<u8>, kind: &[u8], data: &[u8])
    requires
        data@.len() <= u32::MAX,
    ensures
        final(output)@ == old(output)@ + png_chunk(kind@, data@),
{
    push_u32_be(output, data.len() as u32);
    push_slice(output, kind);
    push_slice(output, data);
    let mut crc = Crc32::new();
    crc.update(kind);
    crc.update(data);
    assert(crc.seen() =~= kind@ + data@);
    push_u32_be(output, crc.finish());
    assert(final(output)@ =~= old(output)@ + png_chunk(kind@, data@));
}

/// Appends the IDAT chunk that carries the scanlines of `height` rows of
/// `row_bytes` bytes each.
fn write_idat(output: &mut Vec<u8>, pixels: &[u8], row_bytes: usize, height: usize) -> (r: Result<
    (),
    String,
>)
    requires
        pixels@.len() == height * row_bytes,
        row_bytes < usize::MAX,
    ensures
        match idat_error((row_bytes + 1) * height) {
            Some(message) => r matches Err(e) && e@ == message && final(output)@ == old(output)@,
            None => r is Ok && final(output)@ == old(output)@ + png_chunk(
                idat_kind(),
                zlib_stored(scanlines(pixels@, row_bytes as nat, height as nat)),
            ),
        },
{
    let stride = row_bytes + 1;
    let raw_len = match stride.checked_mul(height) {
        Some(n) => n,
        None => {
            return Err("PNG scanline size overflow".to_owned());
        },
    };
    assert(raw_len == height as int * (row_bytes as int + 1)) by (nonlinear_arith)
        requires
            raw_len == stride * height,
            stride == row_bytes + 1,
    ;
    let blocks = raw_len / STORED_BLOCK_MAX + if raw_len % STORED_BLOCK_MAX == 0 {
        0
    } else {
        1
    };
    assert(blocks == block_count(raw_len as nat));
    let length = match raw_len.checked_add(blocks * 5) {
        Some(v) => match v.checked_add(6) {
            Some(w) => w,
            None => {
                return Err("PNG IDAT size overflow".to_owned());
            },
        },
        None => {
            return Err("PNG IDAT size overflow".to_owned());
        },
    };
    if length as u64 > 0xffff_ffff {
        return Err("PNG IDAT exceeds u32 length".to_owned());
    }
    write_idat_data(output, pixels, row_bytes, height, raw_len, length as u32);
    Ok(())
}

/// Feeds the scanlines of `height` rows of `row_bytes` pixel bytes to the
/// block writer.
fn write_scanlines(
    zlib: &mut StoredZlibWriter,
    output: &mut Vec<u8>,
    crc: &mut Crc32,
    pixels: &[u8],
    row_bytes: usize,
    height: usize,
)
    requires
        pixels@.len() == height * row_bytes,
        old(zlib).wf(),
        old(zlib).raw@ == scanlines(pixels@, row_bytes as nat, height as nat),
        old(zlib).raw_len == height as int * (row_bytes as int + 1),
        old(zlib).raw_written == 0,
        old(zlib).next_block() == 0,
        old(crc).wf(),
    ensures
        final(zlib).wf(),
        final(zlib).raw == old(zlib).raw,
        final(zlib).raw_written == final(zlib).raw_len,
        final(output)@ == old(output)@ + stored_blocks(old(zlib).raw@, 0, final(zlib).next_block()),
        final(crc).wf(),
        final(crc).seen() == old(crc).seen() + stored_blocks(
            old(zlib).raw@,
            0,
            final(zlib).next_block(),
        ),
{
    let ghost raw = zlib.raw@;
    let total = pixels.len();
    assert(stored_blocks(raw, 0, 0) =~= Seq::<u8>::empty());
    assert(output@ =~= old(output)@ + stored_blocks(raw, 0, 0));
    assert(crc.seen() =~= old(crc).seen() + stored_blocks(raw, 0, 0));
    let zero: [u8; 1] = [0];
    let mut row: usize = 0;
    let mut offset: usize = 0;
    while row < height
        invariant
            row <= height,
            pixels@.len() == height * row_bytes,
            total == pixels@.len(),
            zlib.raw_len == height as int * (row_bytes as int + 1),
            raw == scanlines(pixels@, row_bytes as nat, height as nat),
            zero@ == seq![0u8],
            offset == row as int * row_bytes as int,
            zlib.wf(),
            zlib.raw@ == raw,
            zlib.raw_written == row as int * (row_bytes as int + 1),
            crc.wf(),
            output@ == old(output)@ + stored_blocks(raw, 0, zlib.next_block()),
            crc.seen() == old(crc).seen() + stored_blocks(raw, 0, zlib.next_block()),
        decreases height - row,
    {
        proof {
            lemma_scanline_row(pixels@, row_bytes as int, row as int, height as int);
            assert(zero@.subrange(0, 1) =~= seq![0u8]);
        }
        let ghost k0 = zlib.next_block();
        zlib.write_raw(output, crc, &zero, 0, 1);
        let ghost k1 = zlib.next_block();
        zlib.write_raw(output, crc, pixels, offset, offset + row_bytes);
        proof {
            lemma_stored_blocks_split(raw, 0, k0, k1);
            lemma_stored_blocks_split(raw, 0, k1, zlib.next_block());
            assert(output@ =~= old(output)@ + stored_blocks(raw, 0, zlib.next_block()));
            assert(crc.seen() =~= old(crc).seen() + stored_blocks(raw, 0, zlib.next_block()));
        }
        offset = offset + row_bytes;
        row = row + 1;
    }
    assert(row == height);
}

/// Appends the IDAT chunk of scanlines that are known to fit: `raw_len`
/// bytes of scanlines and `length` bytes of chunk data.
#[verifier::spinoff_prover]
#[verifier::rlimit(40)]
fn write_idat_data(
    output: &mut Vec<u8>,
    pixels: &[u8],
    row_bytes: usize,
    height: usize,
    raw_len: usize,
    length: u32,
)
    requires
        pixels@.len() == height * row_bytes,
        raw_len == height as int * (row_bytes as int + 1),
        length == idat_len(raw_len as nat),
    ensures
        final(output)@ == old(output)@ + png_chunk(
            idat_kind(),
            zlib_stored(scanlines(pixels@, row_bytes as nat, height as nat)),
        ),
{
    let ghost raw = scanlines(pixels@, row_bytes as nat, height as nat);
    proof {
        lemma_scanlines_len(pixels@, row_bytes as nat, height as nat);
        lemma_zlib_stored_len(raw);
    }
    let tag: [u8; 4] = [73, 68, 65, 84];
    assert(tag@ =~= idat_kind());
    push_u32_be(output, length);
    push_slice(output, &tag);
    let ghost out0 = output@;
    let mut crc = Crc32::new();
    crc.update(&tag);
    let zlib_header: [u8; 2] = [0x78, 0x01];
    write_crc(output, &mut crc, &zlib_header);
    let mut zlib = StoredZlibWriter::new(raw_len, Ghost(raw));
    write_scanlines(&mut zlib, output, &mut crc, pixels, row_bytes, height);
    let ghost k = zlib.next_block();
    let adler = zlib.finish(output, &mut crc);
    proof {
        lemma_stored_blocks_split(raw, 0, k, block_count(raw.len()));
    }
    let mut tail: Vec<u8> = Vec::new();
    push_u32_be(&mut tail, adler);
    write_crc(output, &mut crc, tail.as_slice());
    proof {
        assert(output@ =~= out0 + zlib_stored(raw));
        assert(crc.seen() =~= idat_kind() + zlib_stored(raw));
    }
    push_u32_be(output, crc.finish());
    assert(final(output)@ =~= old(output)@ + png_chunk(idat_kind(), zlib_stored(raw)));
}


/// Writes an eight-bit straight-alpha RGBA image, `width * 4` bytes per row
/// from the top, as a PNG stream appended to `output`.
///
/// The input is refused, with nothing written, when a dimension is zero, the
/// pixel buffer size overflows, or `pixels` does not hold exactly
/// `width * height` pixels. The signature and IHDR chunk are written before
/// the image data is framed; an image whose IDAT data would exceed 4 GiB
/// (or the address space) is refused at that point.
pub fn write_rgba(output: &mut Vec<u8>, width: u32, height: u32, pixels: &[u8]) -> (r: Result<
    (),
    String,
>)
    ensures
        match png_input_error(width as int, height as int, pixels@.len() as int) {
            Some(message) => r matches Err(e) && e@ == message && final(output)@ == old(output)@,
            None => match png_idat_error(width as int, height as int) {
                Some(message) => r matches Err(e) && e@ == message && final(output)@ == old(output)@ + png_head(width as int, height as int),
                None => r is Ok && final(output)@ == old(output)@ + png_image(
                    width as nat,
                    height as nat,
                    pixels@,
                ),
            },
        },
{
    if width == 0 || height == 0 {
        return Err("PNG dimensions must be nonzero".to_owned());
    }
    let row_bytes = match (width as usize).checked_mul(4) {
        Some(v) => v,
        None => {
            return Err("PNG row size overflow".to_owned());
        },
    };
    let height_usize = height as usize;
    let expected = match row_bytes.checked_mul(height_usize) {
        Some(v) => v,
        None => {
            return Err("PNG image size overflow".to_owned());
        },
    };
    if pixels.len() != expected {
        let mut message = String::new();
        append_str(&mut message, "PNG pixel length mismatch: expected ");
        append_decimal(&mut message, expected as u64);
        append_str(&mut message, ", found ");
        append_decimal(&mut message, pixels.len() as u64);
        return Err(message);
    }
    let signature: [u8; 8] = [137, 80, 78, 71, 13, 10, 26, 10];
    assert(signature@ =~= png_signature());
    push_slice(output, &signature);
    let mut ihdr: Vec<u8> = Vec::new();
    push_u32_be(&mut ihdr, width);
    push_u32_be(&mut ihdr, height);
    ihdr.push(8);
    ihdr.push(6);
    ihdr.push(0);
    ihdr.push(0);
    ihdr.push(0);
    assert(ihdr@ =~= ihdr_data(width as int, height as int));
    let ihdr_tag: [u8; 4] = [73, 72, 68, 82];
    assert(ihdr_tag@ =~= ihdr_kind());
    write_chunk(output, &ihdr_tag, ihdr.as_slice());
    assert(output@ =~= old(output)@ + png_head(width as int, height as int));
    assert(pixels@.len() == height_usize * row_bytes) by (nonlinear_arith)
        requires
            pixels@.len() == row_bytes * height_usize,
    ;
    match write_idat(output, pixels, row_bytes, height_usize) {
        Ok(()) => {},
        Err(e) => {
            return Err(e);
        },
    }
    let iend_tag: [u8; 4] = [73, 69, 78, 68];
    assert(iend_tag@ =~= iend_kind());
    let no_data: Vec<u8> = Vec::new();
    write_chunk(output, &iend_tag, no_data.as_slice());
    assert(final(output)@ =~= old(output)@ + png_image(width as nat, height as nat, pixels@));
    Ok(())
}

/// Reads a run of stored DEFLATE blocks: each block's payload, up to and
/// including the block marked last.
pub open spec fn unstore(z: Seq<u8>) -> Seq<u8>
    decreases z.len(),
{
    if z.len() < 5 {
        Seq::empty()
    } else {
        let len = z[1] as int + 256 * z[2] as int;
        if 5 + len > z.len() {
            Seq::empty()
        } else if z[0] == 1 {
            z.subrange(5, 5 + len)
        } else {
            z.subrange(5, 5 + len) + unstore(z.subrange(5 + len, z.len() as int))
        }
    }
}

proof fn lemma_unstore_from(raw: Seq<u8>, k: nat)
    requires
        k <= block_count(raw.len()),
    ensures
        unstore(stored_blocks(raw, k, block_count(raw.len()))) == raw.subrange(
            if k * 65535 < raw.len() {
                (k * 65535) as int
            } else {
                raw.len() as int
            },
            raw.len() as int,
        ),
    decreases block_count(raw.len()) - k,
{
    let n = raw.len();
    let bc = block_count(n);
    if k == bc {
        assert(stored_blocks(raw, k, bc) =~= Seq::<u8>::empty());
        assert(k * 65535 >= n);
        assert(raw.subrange(n as int, n as int) =~= Seq::<u8>::empty());
    } else {
        lemma_stored_blocks_split(raw, k, k + 1, bc);
        lemma_stored_blocks_one(raw, k);
        lemma_unstore_from(raw, k + 1);
        let block = stored_block(raw, k);
        let rest = stored_blocks(raw, k + 1, bc);
        let z = block + rest;
        let start = (k * 65535) as int;
        let end = if (k + 1) * 65535 < n {
            ((k + 1) * 65535) as int
        } else {
            n as int
        };
        let len = end - start;
        assert(k * 65535 < n);
        assert(0 < len <= 65535);
        assert(z[1] as int + 256 * z[2] as int == len) by {
            assert(z[1] == block[1] && z[2] == block[2]);
            assert(block[1] == (len % 256) as u8);
            assert(block[2] == ((len / 256) % 256) as u8);
        }
        assert(block.len() == 5 + len);
        assert(z.subrange(5, 5 + len) =~= raw.subrange(start, end));
        assert(z.subrange(5 + len, z.len() as int) =~= rest);
        if (k + 1) * 65535 >= n {
            assert(k + 1 == bc);
            assert(z[0] == 1);
            assert(rest =~= Seq::<u8>::empty());
        } else {
            assert(z[0] == 0);
            assert(raw.subrange(start, end) + raw.subrange(end, n as int) =~= raw.subrange(
                start,
                n as int,
            ));
        }
    }
}

/// The stored blocks carry the stream unchanged: reading their payloads
/// back gives the bytes that were framed.
pub proof fn lemma_stored_blocks_round_trip(raw: Seq<u8>)
    ensures
        unstore(stored_blocks(raw, 0, block_count(raw.len()))) == raw,
{
    lemma_unstore_from(raw, 0);
    assert(raw.subrange(0, raw.len() as int) =~= raw);
}


} // verus!
