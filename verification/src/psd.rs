//! Layered Photoshop (PSD version 1) output: one PSD layer record per SAI2
//! layer with folder dividers, RLE channel planes, a private block that
//! preserves each layer's source chunks, and the merged image.

use vstd::prelude::*;

use vstd::slice::slice_subrange;
use vstd::std_specs::iter::IteratorSpec;

use crate::bytes::{be16, be32, be64, push_i16_be, push_i32_be, push_slice, push_u16_be, push_u32_be, push_u64_be};
use crate::chunk::Chunk;
use crate::image::RgbaImage;
use crate::layer::{lemma_layer_flag_bits, Sai2Layer};
use crate::packbits::{inverted, lemma_packbits_inverted_len, lemma_packbits_round_trip};
use crate::rle::{
    channel_rows, composite_plane, lemma_rle_plane_len, lemma_rows_fit, lemma_size_table_len,
    rgba_len_ok, rle_len, rle_plane, rle_rgba_plane_len, rle_solid_plane_len, row_sizes, size_sum,
    size_table, solid_rows, write_rle_composite, write_rle_rgba_plane, write_rle_solid_plane,
    write_row_lengths,
};
use crate::text::{append_decimal, append_str, char_to_u32, decimal};

pub use crate::packbits::{packbits_row_len, write_packbits_row};
pub use crate::rle::write_rle_gray_plane;

verus! {

// ---------------------------------------------------------------------------
// Blend modes
// ---------------------------------------------------------------------------

/// Four bytes as a sequence.
pub open spec fn fourcc(a: u8, b: u8, c: u8, d: u8) -> Seq<u8> {
    seq![a, b, c, d]
}

fn key(a: u8, b: u8, c: u8, d: u8) -> (r: [u8; 4])
    ensures
        r@ == fourcc(a, b, c, d),
{
    let r = [a, b, c, d];
    assert(r@ =~= fourcc(a, b, c, d));
    r
}

fn same(mode: [u8; 4], a: u8, b: u8, c: u8, d: u8) -> (r: bool)
    ensures
        r == (mode@ == fourcc(a, b, c, d)),
{
    let r = mode[0] == a && mode[1] == b && mode[2] == c && mode[3] == d;
    assert(r ==> mode@ =~= fourcc(a, b, c, d));
    r
}

/// The Photoshop blend-mode key for a SAI2 blend-mode key. SAI2's Shade,
/// Shine and Shade/Shine map to Linear Burn, Linear Dodge and Linear Light;
/// Burn, Dodge and Burn/Dodge to Color Burn, Color Dodge and Vivid Light;
/// SAI2's Vivid to Pin Light. Compatibility keys that SAI2 also accepts map
/// to the same modes, and unknown keys to Normal.
pub open spec fn psd_blend_key(mode: Seq<u8>) -> Seq<u8> {
    if mode == fourcc(112, 97, 115, 115) {  // "pass"
        fourcc(112, 97, 115, 115)  // "pass"
    } else if mode == fourcc(110, 111, 114, 109) {  // "norm"
        fourcc(110, 111, 114, 109)  // "norm"
    } else if mode == fourcc(109, 117, 108, 116) {  // "mult"
        fourcc(109, 117, 108, 32)  // "mul "
    } else if mode == fourcc(115, 99, 114, 110) {  // "scrn"
        fourcc(115, 99, 114, 110)  // "scrn"
    } else if mode == fourcc(111, 118, 101, 114) {  // "over"
        fourcc(111, 118, 101, 114)  // "over"
    } else if mode == fourcc(115, 98, 97, 100) {  // "sbad"
        fourcc(108, 98, 114, 110)  // "lbrn"
    } else if mode == fourcc(98, 117, 114, 110) {  // "burn"
        fourcc(108, 100, 100, 103)  // "lddg"
    } else if mode == fourcc(100, 100, 103, 101) {  // "ddge"
        fourcc(108, 76, 105, 116)  // "lLit"
    } else if mode == fourcc(98, 110, 100, 103) {  // "bndg"
        fourcc(105, 100, 105, 118)  // "idiv"
    } else if mode == fourcc(105, 108, 105, 116) {  // "ilit"
        fourcc(100, 105, 118, 32)  // "div "
    } else if mode == fourcc(99, 100, 105, 102) {  // "cdif"
        fourcc(118, 76, 105, 116)  // "vLit"
    } else if mode == fourcc(115, 108, 105, 116) {  // "slit"
        fourcc(115, 76, 105, 116)  // "sLit"
    } else if mode == fourcc(104, 108, 105, 116) {  // "hlit"
        fourcc(104, 76, 105, 116)  // "hLit"
    } else if mode == fourcc(112, 108, 105, 116) {  // "plit"
        fourcc(112, 76, 105, 116)  // "pLit"
    } else if mode == fourcc(104, 109, 105, 120) {  // "hmix"
        fourcc(104, 77, 105, 120)  // "hMix"
    } else if mode == fourcc(100, 97, 114, 107) {  // "dark"
        fourcc(100, 97, 114, 107)  // "dark"
    } else if mode == fourcc(108, 105, 116, 110) || mode == fourcc(108, 105, 116, 101) {  // "litn", "lite"
        fourcc(108, 105, 116, 101)  // "lite"
    } else if mode == fourcc(100, 114, 107, 99) {  // "drkc"
        fourcc(100, 107, 67, 108)  // "dkCl"
    } else if mode == fourcc(108, 105, 116, 99) {  // "litc"
        fourcc(108, 103, 67, 108)  // "lgCl"
    } else if mode == fourcc(100, 105, 102, 102) {  // "diff"
        fourcc(100, 105, 102, 102)  // "diff"
    } else if mode == fourcc(101, 120, 99, 108) {  // "excl"
        fourcc(115, 109, 117, 100)  // "smud"
    } else if mode == fourcc(102, 115, 117, 98) || mode == fourcc(115, 117, 98, 32) {  // "fsub", "sub "
        fourcc(102, 115, 117, 98)  // "fsub"
    } else if mode == fourcc(102, 100, 105, 118) {  // "fdiv"
        fourcc(102, 100, 105, 118)  // "fdiv"
    } else if mode == fourcc(104, 117, 101, 32) {  // "hue "
        fourcc(104, 117, 101, 32)  // "hue "
    } else if mode == fourcc(115, 97, 116, 32) {  // "sat "
        fourcc(115, 97, 116, 32)  // "sat "
    } else if mode == fourcc(99, 111, 108, 32) {  // "col "
        fourcc(99, 111, 108, 114)  // "colr"
    } else if mode == fourcc(108, 117, 109, 32) {  // "lum "
        fourcc(108, 117, 109, 32)  // "lum "
    } else if mode == fourcc(97, 100, 100, 32) || mode == fourcc(108, 100, 100, 103) {  // "add ", "lddg"
        fourcc(108, 100, 100, 103)  // "lddg"
    } else if mode == fourcc(108, 98, 114, 110) {  // "lbrn"
        fourcc(108, 98, 114, 110)  // "lbrn"
    } else if mode == fourcc(108, 108, 105, 116) {  // "llit"
        fourcc(108, 76, 105, 116)  // "lLit"
    } else if mode == fourcc(99, 98, 114, 110) {  // "cbrn"
        fourcc(105, 100, 105, 118)  // "idiv"
    } else if mode == fourcc(99, 100, 100, 103) {  // "cddg"
        fourcc(100, 105, 118, 32)  // "div "
    } else if mode == fourcc(118, 108, 105, 116) {  // "vlit"
        fourcc(118, 76, 105, 116)  // "vLit"
    } else {
        fourcc(110, 111, 114, 109)  // "norm"
    }
}

/// Maps a SAI2 blend-mode key to its Photoshop key.
pub fn psd_blend_key_for(mode: [u8; 4]) -> (r: [u8; 4])
    ensures
        r@ == psd_blend_key(mode@),
{
    if same(mode, 112, 97, 115, 115) {  // "pass"
        key(112, 97, 115, 115)  // "pass"
    } else if same(mode, 110, 111, 114, 109) {  // "norm"
        key(110, 111, 114, 109)  // "norm"
    } else if same(mode, 109, 117, 108, 116) {  // "mult"
        key(109, 117, 108, 32)  // "mul "
    } else if same(mode, 115, 99, 114, 110) {  // "scrn"
        key(115, 99, 114, 110)  // "scrn"
    } else if same(mode, 111, 118, 101, 114) {  // "over"
        key(111, 118, 101, 114)  // "over"
    } else if same(mode, 115, 98, 97, 100) {  // "sbad"
        key(108, 98, 114, 110)  // "lbrn"
    } else if same(mode, 98, 117, 114, 110) {  // "burn"
        key(108, 100, 100, 103)  // "lddg"
    } else if same(mode, 100, 100, 103, 101) {  // "ddge"
        key(108, 76, 105, 116)  // "lLit"
    } else if same(mode, 98, 110, 100, 103) {  // "bndg"
        key(105, 100, 105, 118)  // "idiv"
    } else if same(mode, 105, 108, 105, 116) {  // "ilit"
        key(100, 105, 118, 32)  // "div "
    } else if same(mode, 99, 100, 105, 102) {  // "cdif"
        key(118, 76, 105, 116)  // "vLit"
    } else if same(mode, 115, 108, 105, 116) {  // "slit"
        key(115, 76, 105, 116)  // "sLit"
    } else if same(mode, 104, 108, 105, 116) {  // "hlit"
        key(104, 76, 105, 116)  // "hLit"
    } else if same(mode, 112, 108, 105, 116) {  // "plit"
        key(112, 76, 105, 116)  // "pLit"
    } else if same(mode, 104, 109, 105, 120) {  // "hmix"
        key(104, 77, 105, 120)  // "hMix"
    } else if same(mode, 100, 97, 114, 107) {  // "dark"
        key(100, 97, 114, 107)  // "dark"
    } else if same(mode, 108, 105, 116, 110) || same(mode, 108, 105, 116, 101) {  // "litn", "lite"
        key(108, 105, 116, 101)  // "lite"
    } else if same(mode, 100, 114, 107, 99) {  // "drkc"
        key(100, 107, 67, 108)  // "dkCl"
    } else if same(mode, 108, 105, 116, 99) {  // "litc"
        key(108, 103, 67, 108)  // "lgCl"
    } else if same(mode, 100, 105, 102, 102) {  // "diff"
        key(100, 105, 102, 102)  // "diff"
    } else if same(mode, 101, 120, 99, 108) {  // "excl"
        key(115, 109, 117, 100)  // "smud"
    } else if same(mode, 102, 115, 117, 98) || same(mode, 115, 117, 98, 32) {  // "fsub", "sub "
        key(102, 115, 117, 98)  // "fsub"
    } else if same(mode, 102, 100, 105, 118) {  // "fdiv"
        key(102, 100, 105, 118)  // "fdiv"
    } else if same(mode, 104, 117, 101, 32) {  // "hue "
        key(104, 117, 101, 32)  // "hue "
    } else if same(mode, 115, 97, 116, 32) {  // "sat "
        key(115, 97, 116, 32)  // "sat "
    } else if same(mode, 99, 111, 108, 32) {  // "col "
        key(99, 111, 108, 114)  // "colr"
    } else if same(mode, 108, 117, 109, 32) {  // "lum "
        key(108, 117, 109, 32)  // "lum "
    } else if same(mode, 97, 100, 100, 32) || same(mode, 108, 100, 100, 103) {  // "add ", "lddg"
        key(108, 100, 100, 103)  // "lddg"
    } else if same(mode, 108, 98, 114, 110) {  // "lbrn"
        key(108, 98, 114, 110)  // "lbrn"
    } else if same(mode, 108, 108, 105, 116) {  // "llit"
        key(108, 76, 105, 116)  // "lLit"
    } else if same(mode, 99, 98, 114, 110) {  // "cbrn"
        key(105, 100, 105, 118)  // "idiv"
    } else if same(mode, 99, 100, 100, 103) {  // "cddg"
        key(100, 105, 118, 32)  // "div "
    } else if same(mode, 118, 108, 105, 116) {  // "vlit"
        key(118, 76, 105, 116)  // "vLit"
    } else {
        key(110, 111, 114, 109)  // "norm"
    }
}

// ---------------------------------------------------------------------------
// Layer records
// ---------------------------------------------------------------------------

/// One PSD layer record: a SAI2 layer (by its index in the layer list) or
/// the bounding divider that closes a folder.
#[derive(Clone, Copy)]
pub enum PsdRecord {
    Source(usize),
    Divider,
}

/// `n` divider records.
pub open spec fn dividers(n: int) -> Seq<PsdRecord> {
    Seq::new(n as nat, |i: int| PsdRecord::Divider)
}

/// The records for the last `k` layers of `layers` (PSD lists layers from
/// the bottom up, SAI2 from the top down) and the folder depth reached, or
/// the layer that leaves a folder it did not open.
pub open spec fn records_run(layers: Seq<Sai2Layer>, k: nat) -> Result<(Seq<PsdRecord>, int), Seq<char>>
    decreases k,
{
    if k == 0 {
        Ok((Seq::empty(), 0))
    } else {
        match records_run(layers, (k - 1) as nat) {
            Err(e) => Err(e),
            Ok((records, depth)) => {
                let index = layers.len() - k;
                let layer = layers[index];
                let level = layer.nesting_level() as int;
                if level > depth {
                    Ok((records + dividers(level - depth).push(PsdRecord::Source(index as usize)), level))
                } else if level < depth {
                    if level + 1 != depth || !layer.is_folder() {
                        Err("layer "@ + decimal(layer.id() as nat) + " does not close folder depth "@
                            + decimal(depth as nat))
                    } else {
                        Ok((records.push(PsdRecord::Source(index as usize)), level))
                    }
                } else if layer.is_folder() {
                    Ok((records.push(PsdRecord::Divider).push(PsdRecord::Source(index as usize)), depth))
                } else {
                    Ok((records.push(PsdRecord::Source(index as usize)), depth))
                }
            },
        }
    }
}

/// The PSD layer records of the SAI2 layers, bottom layer first: a folder's
/// record comes after those of its contents and a divider record before
/// them.
pub open spec fn psd_records(layers: Seq<Sai2Layer>) -> Result<Seq<PsdRecord>, Seq<char>> {
    match records_run(layers, layers.len()) {
        Err(e) => Err(e),
        Ok((records, depth)) => if depth != 0 {
            Err("unclosed SAI2 folder depth "@ + decimal(depth as nat))
        } else {
            Ok(records)
        },
    }
}

proof fn lemma_records_run(layers: Seq<Sai2Layer>, k: nat)
    requires
        k <= layers.len(),
    ensures
        records_run(layers, k) matches Ok((records, depth)) ==> 0 <= depth < 256 && (forall|
            i: int,
        |
            0 <= i < records.len() ==> (#[trigger] records[i] matches PsdRecord::Source(j) ==> j
                < layers.len())),
    decreases k,
{
    if k > 0 {
        lemma_records_run(layers, (k - 1) as nat);
    }
}

proof fn lemma_records_run_err(layers: Seq<Sai2Layer>, k: nat, m: nat)
    requires
        k <= m,
        records_run(layers, k) is Err,
    ensures
        records_run(layers, m) == records_run(layers, k),
    decreases m,
{
    if m > k {
        lemma_records_run_err(layers, k, (m - 1) as nat);
    }
}

/// The PSD layer records, or the folder nesting error.
fn build_psd_records(layers: &[Sai2Layer]) -> (r: Result<Vec<PsdRecord>, String>)
    ensures
        match psd_records(layers@) {
            Err(message) => r matches Err(e) && e@ == message,
            Ok(records) => r matches Ok(v) && v@ == records,
        },
{
    let mut records: Vec<PsdRecord> = Vec::new();
    let mut depth: u8 = 0;
    let n = layers.len();
    let mut k: usize = 0;
    while k < n
        invariant
            k <= n,
            n == layers@.len(),
            records_run(layers@, k as nat) == Ok::<(Seq<PsdRecord>, int), Seq<char>>(
                (records@, depth as int),
            ),
        decreases n - k,
    {
        let index = n - 1 - k;
        let layer = &layers[index];
        let level = layer.nesting_level();
        let ghost before = records@;
        if level > depth {
            let ghost start = depth;
            while depth < level
                invariant
                    start <= depth <= level,
                    records@ == before + dividers(depth - start),
                decreases level - depth,
            {
                records.push(PsdRecord::Divider);
                depth = depth + 1;
                assert(records@ =~= before + dividers(depth - start));
            }
        } else if level < depth {
            if level + 1 != depth || !layer.is_folder() {
                let mut message = String::new();
                append_str(&mut message, "layer ");
                append_decimal(&mut message, layer.id() as u64);
                append_str(&mut message, " does not close folder depth ");
                append_decimal(&mut message, depth as u64);
                proof {
                    lemma_records_run_err(layers@, (k + 1) as nat, n as nat);
                }
                return Err(message);
            }
            depth = level;
        } else if layer.is_folder() {
            records.push(PsdRecord::Divider);
        }
        records.push(PsdRecord::Source(index));
        k = k + 1;
    }
    if depth != 0 {
        let mut message = String::new();
        append_str(&mut message, "unclosed SAI2 folder depth ");
        append_decimal(&mut message, depth as u64);
        return Err(message);
    }
    Ok(records)
}


// ---------------------------------------------------------------------------
// Names and tagged blocks
// ---------------------------------------------------------------------------

/// `n` zero bytes.
pub open spec fn zeros(n: int) -> Seq<u8> {
    Seq::new(n as nat, |i: int| 0u8)
}

/// `n` rounded up to a multiple of four.
pub open spec fn round4(n: int) -> int {
    (n + 3) / 4 * 4
}

/// The `8BIM` signature of tagged blocks.
pub open spec fn sig_8bim() -> Seq<u8> {
    seq![56u8, 66u8, 73u8, 77u8]
}

/// A Pascal string padded to a multiple of four bytes: the length byte and
/// at most 255 bytes of the name.
#[verifier::opaque]
pub open spec fn pascal_name(name: Seq<u8>) -> Seq<u8> {
    let l: int = if name.len() < 255 {
        name.len() as int
    } else {
        255
    };
    seq![l as u8] + name.subrange(0, l) + zeros(round4(1 + l) - (1 + l))
}

/// The size of `pascal_name(name)`.
pub open spec fn pascal_name_len(name: Seq<u8>) -> int {
    round4(
        1 + if name.len() < 255 {
            name.len() as int
        } else {
            255
        },
    )
}

/// ASCII decimal digits of `n`.
pub open spec fn decimal_bytes(n: nat) -> Seq<u8>
    decreases n,
{
    if n < 10 {
        seq![(48 + n) as u8]
    } else {
        decimal_bytes(n / 10).push((48 + n % 10) as u8)
    }
}

/// The Pascal name of a source layer's record: `Layer ` and its ID.
pub open spec fn fallback_name(id: nat) -> Seq<u8> {
    seq![76u8, 97u8, 121u8, 101u8, 114u8, 32u8] + decimal_bytes(id)
}

/// `</Layer group>`, the name of folder dividers.
pub open spec fn divider_name() -> Seq<u8> {
    seq![60u8, 47u8, 76u8, 97u8, 121u8, 101u8, 114u8, 32u8, 103u8, 114u8, 111u8, 117u8, 112u8, 62u8]
}

/// `SAI2 Canvas Background`, the name of the white background layer.
pub open spec fn background_name() -> Seq<u8> {
    seq![
        83u8, 65u8, 73u8, 50u8, 32u8, 67u8, 97u8, 110u8, 118u8, 97u8, 115u8, 32u8, 66u8, 97u8,
        99u8, 107u8, 103u8, 114u8, 111u8, 117u8, 110u8, 100u8,
    ]
}

/// ASCII bytes as UTF-16 code units.
pub open spec fn widen(s: Seq<u8>) -> Seq<u16> {
    Seq::new(s.len(), |i: int| s[i] as u16)
}

/// The UTF-16 code units of one character.
pub open spec fn char_utf16(c: char) -> Seq<u16> {
    let v = c as int;
    if v < 0x10000 {
        seq![v as u16]
    } else {
        seq![(0xD800 + (v - 0x10000) / 1024) as u16, (0xDC00 + (v - 0x10000) % 1024) as u16]
    }
}

/// The UTF-16 code units of a string.
pub open spec fn utf16_of(s: Seq<char>) -> Seq<u16>
    decreases s.len(),
{
    if s.len() == 0 {
        Seq::empty()
    } else {
        utf16_of(s.drop_last()) + char_utf16(s.last())
    }
}

/// The `luni` block that carries a layer's Unicode name.
#[verifier::opaque]
pub open spec fn unicode_name(units: Seq<u16>) -> Seq<u8> {
    sig_8bim() + seq![108u8, 117u8, 110u8, 105u8] + be32(4 + 2 * units.len() as int) + be32(
        units.len() as int,
    ) + size_table(units)
}

/// The size of `unicode_name(units)`.
pub open spec fn unicode_name_len(units: Seq<u16>) -> int {
    16 + 2 * units.len() as int
}

/// The `lsct` block of a folder (kind 1, with its blend mode) or of a
/// bounding divider (kind 3).
#[verifier::opaque]
pub open spec fn section_divider(kind: int, blend: Option<Seq<u8>>) -> Seq<u8> {
    sig_8bim() + seq![108u8, 115u8, 99u8, 116u8] + be32(
        if blend is Some {
            12
        } else {
            4
        },
    ) + be32(kind) + match blend {
        Some(key) => sig_8bim() + key,
        None => Seq::empty(),
    }
}

/// The size of `section_divider(kind, blend)`.
pub open spec fn section_divider_block_len(has_blend_mode: bool) -> int {
    if has_blend_mode {
        24
    } else {
        16
    }
}

fn push_decimal_bytes(out: &mut Vec<u8>, n: u64)
    ensures
        final(out)@ == old(out)@ + decimal_bytes(n as nat),
    decreases n,
{
    if n >= 10 {
        push_decimal_bytes(out, n / 10);
    }
    out.push((48 + n % 10) as u8);
    assert(final(out)@ =~= old(out)@ + decimal_bytes(n as nat)) by {
        if n >= 10 {
            assert(old(out)@ + decimal_bytes(n as nat) =~= (old(out)@ + decimal_bytes(
                (n / 10) as nat,
            )).push((48 + n % 10) as u8));
        }
    }
}

fn fallback_name_bytes(id: u32) -> (r: Vec<u8>)
    ensures
        r@ == fallback_name(id as nat),
{
    let mut name: Vec<u8> = Vec::new();
    name.push(76);
    name.push(97);
    name.push(121);
    name.push(101);
    name.push(114);
    name.push(32);
    push_decimal_bytes(&mut name, id as u64);
    assert(name@ =~= fallback_name(id as nat));
    name
}

fn divider_name_bytes() -> (r: Vec<u8>)
    ensures
        r@ == divider_name(),
{
    let r: Vec<u8> = vec![60, 47, 76, 97, 121, 101, 114, 32, 103, 114, 111, 117, 112, 62];
    assert(r@ =~= divider_name());
    r
}

fn background_name_bytes() -> (r: Vec<u8>)
    ensures
        r@ == background_name(),
{
    let r: Vec<u8> = vec![
        83, 65, 73, 50, 32, 67, 97, 110, 118, 97, 115, 32, 66, 97, 99, 107, 103, 114, 111, 117,
        110, 100,
    ];
    assert(r@ =~= background_name());
    r
}

fn widen_bytes(bytes: &[u8]) -> (r: Vec<u16>)
    ensures
        r@ == widen(bytes@),
{
    let mut units: Vec<u16> = Vec::new();
    let mut i: usize = 0;
    while i < bytes.len()
        invariant
            i <= bytes@.len(),
            units@ =~= widen(bytes@.subrange(0, i as int)),
        decreases bytes@.len() - i,
    {
        units.push(bytes[i] as u16);
        i = i + 1;
    }
    assert(bytes@.subrange(0, bytes@.len() as int) =~= bytes@);
    units
}

/// The UTF-16 code units of `name`.
fn utf16_units(name: &str) -> (r: Vec<u16>)
    ensures
        r@ == utf16_of(name@),
{
    let mut units: Vec<u16> = Vec::new();
    let mut chars = name.chars();
    let ghost mut done: Seq<char> = Seq::empty();
    loop
        invariant
            name@ == done + chars.remaining(),
            units@ == utf16_of(done),
            chars.obeys_prophetic_iter_laws(),
            chars.decrease() is Some,
        decreases chars.decrease()->0,
    {
        match chars.next() {
            None => {
                assert(done =~= name@);
                return units;
            },
            Some(c) => {
                let v = char_to_u32(c);
                if v < 0x10000 {
                    units.push(v as u16);
                } else {
                    let w = v - 0x10000;
                    units.push((0xD800 + w / 1024) as u16);
                    units.push((0xDC00 + w % 1024) as u16);
                }
                proof {
                    let d2 = done.push(c);
                    assert(d2.drop_last() =~= done);
                    assert(units@ =~= utf16_of(done) + char_utf16(c));
                    assert(name@ =~= d2 + chars.remaining());
                    done = d2;
                }
            },
        }
    }
}

/// Appends a Pascal name padded to four bytes.
fn write_pascal_name(output: &mut Vec<u8>, name: &[u8])
    ensures
        final(output)@ == old(output)@ + pascal_name(name@),
{
    reveal(pascal_name);
    let length: usize = if name.len() < 255 {
        name.len()
    } else {
        255
    };
    output.push(length as u8);
    push_slice(output, slice_subrange(name, 0, length));
    let padded = (1 + length + 3) / 4 * 4;
    let mut i = 1 + length;
    while i < padded
        invariant
            1 + length <= i <= padded,
            padded == round4(1 + length),
            output@ == old(output)@ + seq![length as u8] + name@.subrange(0, length as int)
                + zeros(i - (1 + length)),
        decreases padded - i,
    {
        output.push(0);
        i = i + 1;
        assert(output@ =~= old(output)@ + seq![length as u8] + name@.subrange(0, length as int)
            + zeros(i - (1 + length)));
    }
}

/// Appends the `luni` block of a Unicode name.
fn write_unicode_name(output: &mut Vec<u8>, units: &[u16])
    requires
        16 + 2 * units@.len() <= u32::MAX,
    ensures
        final(output)@ == old(output)@ + unicode_name(units@),
{
    reveal(unicode_name);
    let tag: [u8; 8] = [56, 66, 73, 77, 108, 117, 110, 105];
    push_slice(output, &tag);
    push_u32_be(output, (4 + units.len() * 2) as u32);
    push_u32_be(output, units.len() as u32);
    write_row_lengths(output, units);
    assert(tag@ =~= sig_8bim() + seq![108u8, 117u8, 110u8, 105u8]);
    assert(final(output)@ =~= old(output)@ + unicode_name(units@));
}

/// Appends an `lsct` section-divider block.
fn write_section_divider(output: &mut Vec<u8>, divider_type: u32, blend_mode: Option<[u8; 4]>)
    ensures
        final(output)@ == old(output)@ + section_divider(
            divider_type as int,
            match blend_mode {
                Some(key) => Some(key@),
                None => None,
            },
        ),
{
    reveal(section_divider);
    let data_len: u32 = if blend_mode.is_some() {
        12
    } else {
        4
    };
    let tag: [u8; 8] = [56, 66, 73, 77, 108, 115, 99, 116];
    push_slice(output, &tag);
    push_u32_be(output, data_len);
    push_u32_be(output, divider_type);
    match blend_mode {
        Some(key) => {
            let sig: [u8; 4] = [56, 66, 73, 77];
            push_slice(output, &sig);
            push_slice(output, &key);
            assert(sig@ =~= sig_8bim());
        },
        None => {},
    }
    assert(tag@ =~= sig_8bim() + seq![108u8, 115u8, 99u8, 116u8]);
    assert(final(output)@ =~= old(output)@ + section_divider(
        divider_type as int,
        match blend_mode {
            Some(key) => Some(key@),
            None => None,
        },
    ));
}


// ---------------------------------------------------------------------------
// Preserved SAI2 source chunks (`s2ly`)
// ---------------------------------------------------------------------------

/// Size of the `s2ly` payload: magic, version and chunk count, then for
/// each chunk a 24-byte record header and the chunk's body.
pub open spec fn sai2_payload_len(chunks: Seq<Chunk>) -> int
    decreases chunks.len(),
{
    if chunks.len() == 0 {
        16
    } else {
        sai2_payload_len(chunks.drop_last()) + 24 + chunks.last().size()
    }
}

/// One preserved chunk: kind, object ID, source offset, size, and the body
/// bytes taken from the source.
pub open spec fn chunk_record(chunk: Chunk, source: Seq<u8>) -> Seq<u8> {
    chunk.kind().as_bytes()@ + be32(chunk.object_id() as int) + be64(chunk.offset() as int) + be64(
        chunk.size() as int,
    ) + source.subrange(chunk.offset() as int, chunk.offset() + chunk.size())
}

pub open spec fn chunk_records(chunks: Seq<Chunk>, source: Seq<u8>) -> Seq<u8>
    decreases chunks.len(),
{
    if chunks.len() == 0 {
        Seq::empty()
    } else {
        chunk_records(chunks.drop_last(), source) + chunk_record(chunks.last(), source)
    }
}

/// The `s2ly` block that preserves a layer's source chunks, padded to four
/// bytes.
#[verifier::opaque]
pub open spec fn sai2_layer_block(chunks: Seq<Chunk>, source: Seq<u8>) -> Seq<u8> {
    let p = sai2_payload_len(chunks);
    sig_8bim() + seq![115u8, 50u8, 108u8, 121u8] + be32(p) + seq![
        83u8,
        65u8,
        73u8,
        50u8,
        76u8,
        89u8,
        82u8,
        0u8,
    ] + be32(1) + be32(chunks.len() as int) + chunk_records(chunks, source) + zeros(round4(p) - p)
}

/// Size of `sai2_layer_block(chunks, source)`.
pub open spec fn sai2_layer_block_len(chunks: Seq<Chunk>) -> int {
    12 + round4(sai2_payload_len(chunks))
}

/// Why a chunk's body cannot be copied from a source of `len` bytes, if it
/// cannot.
pub open spec fn chunk_source_error(chunk: Chunk, len: int) -> Option<Seq<char>> {
    if chunk.offset() > usize::MAX {
        Some("SAI2 chunk offset does not fit this platform"@)
    } else if chunk.offset() + chunk.size() > usize::MAX {
        Some("SAI2 chunk range overflow"@)
    } else if chunk.offset() + chunk.size() > len {
        Some("SAI2 source does not contain a preserved layer chunk"@)
    } else {
        None
    }
}

/// The first chunk-source error among `chunks[k..]`, if any.
pub open spec fn chunks_source_error(chunks: Seq<Chunk>, len: int, k: int) -> Option<Seq<char>>
    decreases chunks.len() - k,
{
    if 0 <= k < chunks.len() {
        match chunk_source_error(chunks[k], len) {
            Some(message) => Some(message),
            None => chunks_source_error(chunks, len, k + 1),
        }
    } else {
        None
    }
}

proof fn lemma_payload_monotone(chunks: Seq<Chunk>, k: int)
    requires
        0 <= k <= chunks.len(),
    ensures
        16 <= sai2_payload_len(chunks.subrange(0, k)),
        sai2_payload_len(chunks.subrange(0, k)) + 24 * (chunks.len() - k) <= sai2_payload_len(
            chunks,
        ),
    decreases chunks.len(),
{
    if k == chunks.len() {
        assert(chunks.subrange(0, k) =~= chunks);
        lemma_payload_at_least(chunks);
    } else {
        let init = chunks.drop_last();
        lemma_payload_monotone(init, k);
        assert(init.subrange(0, k) =~= chunks.subrange(0, k));
    }
}

proof fn lemma_payload_at_least(chunks: Seq<Chunk>)
    ensures
        16 + 24 * chunks.len() <= sai2_payload_len(chunks),
    decreases chunks.len(),
{
    if chunks.len() > 0 {
        lemma_payload_at_least(chunks.drop_last());
    }
}

/// Size of the `s2ly` payload of `layer`.
fn sai2_layer_payload_len(layer: &Sai2Layer) -> (r: Result<usize, String>)
    ensures
        sai2_payload_len(layer.source_list()) >= 16,
        sai2_payload_len(layer.source_list()) <= usize::MAX ==> r == Ok::<usize, String>(
            sai2_payload_len(layer.source_list()) as usize,
        ),
        sai2_payload_len(layer.source_list()) > usize::MAX ==> (r matches Err(e) && e@
            == "embedded SAI2 layer data is too large"@),
{
    let chunks = layer.source_chunks();
    proof {
        lemma_payload_at_least(chunks@);
    }
    let mut length: usize = 16;
    let mut i: usize = 0;
    while i < chunks.len()
        invariant
            i <= chunks@.len(),
            chunks@ == layer.source_list(),
            length == sai2_payload_len(chunks@.subrange(0, i as int)),
        decreases chunks@.len() - i,
    {
        proof {
            assert(chunks@.subrange(0, i + 1).drop_last() =~= chunks@.subrange(0, i as int));
            lemma_payload_monotone(chunks@, i + 1);
        }
        let next = match length.checked_add(24) {
            Some(v) => v,
            None => {
                return Err("embedded SAI2 layer data is too large".to_owned());
            },
        };
        length = match next.checked_add(chunks[i].size()) {
            Some(v) => v,
            None => {
                return Err("embedded SAI2 layer data is too large".to_owned());
            },
        };
        i = i + 1;
    }
    assert(chunks@.subrange(0, chunks@.len() as int) =~= chunks@);
    Ok(length)
}

/// `value` rounded up to a multiple of four, if that fits.
fn round_up4(value: usize) -> (r: Option<usize>)
    ensures
        round4(value as int) <= usize::MAX ==> r == Some(round4(value as int) as usize),
        round4(value as int) > usize::MAX ==> r is None,
{
    let quarters = value / 4 + if value % 4 == 0 {
        0
    } else {
        1
    };
    assert(quarters == (value + 3) / 4);
    quarters.checked_mul(4)
}

/// Why the `s2ly` block of `chunks` cannot be sized, if it cannot.
pub open spec fn sai2_block_error(chunks: Seq<Chunk>) -> Option<Seq<char>> {
    let p = sai2_payload_len(chunks);
    if p > usize::MAX {
        Some("embedded SAI2 layer data is too large"@)
    } else if p > u32::MAX {
        Some("PSD section exceeds the 4 GiB format limit"@)
    } else if sai2_layer_block_len(chunks) > usize::MAX {
        Some("embedded SAI2 layer block is too large"@)
    } else {
        None
    }
}

/// Size of the `s2ly` block of `layer`.
fn sai2_layer_block_size(layer: &Sai2Layer) -> (r: Result<usize, String>)
    ensures
        sai2_layer_block_len(layer.source_list()) >= 28,
        match sai2_block_error(layer.source_list()) {
            Some(message) => r matches Err(e) && e@ == message,
            None => r == Ok::<usize, String>(sai2_layer_block_len(layer.source_list()) as usize),
        },
{
    let payload_len = match sai2_layer_payload_len(layer) {
        Ok(v) => v,
        Err(e) => {
            return Err(e);
        },
    };
    if payload_len as u64 > 0xffff_ffff {
        return Err("PSD section exceeds the 4 GiB format limit".to_owned());
    }
    let padded = match round_up4(payload_len) {
        Some(v) => v,
        None => {
            return Err("embedded SAI2 layer block is too large".to_owned());
        },
    };
    match padded.checked_add(12) {
        Some(v) => Ok(v),
        None => Err("embedded SAI2 layer block is too large".to_owned()),
    }
}

/// Appends `padded - len` zero bytes.
fn write_zeros(output: &mut Vec<u8>, len: usize, padded: usize)
    requires
        len <= padded,
    ensures
        final(output)@ == old(output)@ + zeros(padded - len),
{
    let mut k = len;
    while k < padded
        invariant
            len <= k <= padded,
            output@ == old(output)@ + zeros(k - len),
        decreases padded - k,
    {
        output.push(0);
        k = k + 1;
        assert(output@ =~= old(output)@ + zeros(k - len));
    }
}

/// Appends one preserved chunk record, if `source` holds the chunk's body.
#[verifier::spinoff_prover]
fn write_chunk_record(output: &mut Vec<u8>, chunk: Chunk, source: &[u8]) -> (r: Result<(), String>)
    ensures
        match chunk_source_error(chunk, source@.len() as int) {
            Some(message) => r matches Err(e) && e@ == message && final(output)@ == old(output)@,
            None => r is Ok && final(output)@ == old(output)@ + chunk_record(chunk, source@),
        },
{
    let offset_wide = chunk.offset();
    if offset_wide > usize::MAX as u64 {
        return Err("SAI2 chunk offset does not fit this platform".to_owned());
    }
    let offset = offset_wide as usize;
    let end = match offset.checked_add(chunk.size()) {
        Some(v) => v,
        None => {
            return Err("SAI2 chunk range overflow".to_owned());
        },
    };
    if end > source.len() {
        return Err("SAI2 source does not contain a preserved layer chunk".to_owned());
    }
    let kind = chunk.kind().as_bytes();
    push_slice(output, &kind);
    push_u32_be(output, chunk.object_id());
    push_u64_be(output, chunk.offset());
    push_u64_be(output, chunk.size() as u64);
    push_slice(output, slice_subrange(source, offset, end));
    assert(final(output)@ =~= old(output)@ + chunk_record(chunk, source@));
    Ok(())
}

/// Appends the records of `chunks`, failing on the first chunk that
/// `source` does not hold.
fn write_chunk_records(output: &mut Vec<u8>, chunks: &[Chunk], source: &[u8]) -> (r: Result<
    (),
    String,
>)
    ensures
        match chunks_source_error(chunks@, source@.len() as int, 0) {
            Some(message) => r matches Err(e) && e@ == message,
            None => r is Ok && final(output)@ == old(output)@ + chunk_records(chunks@, source@),
        },
{
    let ghost len = source@.len() as int;
    let mut i: usize = 0;
    while i < chunks.len()
        invariant
            i <= chunks@.len(),
            len == source@.len(),
            output@ == old(output)@ + chunk_records(chunks@.subrange(0, i as int), source@),
            chunks_source_error(chunks@, len, 0) == chunks_source_error(chunks@, len, i as int),
        decreases chunks@.len() - i,
    {
        match write_chunk_record(output, chunks[i], source) {
            Ok(()) => {},
            Err(e) => {
                return Err(e);
            },
        }
        proof {
            assert(chunks@.subrange(0, i + 1).drop_last() =~= chunks@.subrange(0, i as int));
            assert(output@ =~= old(output)@ + chunk_records(chunks@.subrange(0, i + 1), source@));
        }
        i = i + 1;
    }
    assert(chunks@.subrange(0, chunks@.len() as int) =~= chunks@);
    Ok(())
}

/// Appends the `s2ly` block of `layer`, copying each source chunk's body
/// from `source`; fails on the first chunk that `source` does not hold.
#[verifier::spinoff_prover]
#[verifier::rlimit(30)]
fn write_sai2_layer_data(output: &mut Vec<u8>, layer: &Sai2Layer, source: &[u8]) -> (r: Result<
    (),
    String,
>)
    requires
        sai2_block_error(layer.source_list()) is None,
    ensures
        match chunks_source_error(layer.source_list(), source@.len() as int, 0) {
            Some(message) => r matches Err(e) && e@ == message,
            None => r is Ok && final(output)@ == old(output)@ + sai2_layer_block(
                layer.source_list(),
                source@,
            ),
        },
{
    let payload_len = match sai2_layer_payload_len(layer) {
        Ok(v) => v,
        Err(e) => {
            return Err(e);
        },
    };
    let chunks = layer.source_chunks();
    proof {
        lemma_payload_monotone(chunks@, 0);
    }
    let head: [u8; 8] = [56, 66, 73, 77, 115, 50, 108, 121];
    push_slice(output, &head);
    push_u32_be(output, payload_len as u32);
    let magic: [u8; 8] = [83, 65, 73, 50, 76, 89, 82, 0];
    push_slice(output, &magic);
    push_u32_be(output, 1);
    push_u32_be(output, chunks.len() as u32);
    match write_chunk_records(output, chunks, source) {
        Ok(()) => {},
        Err(e) => {
            return Err(e);
        },
    }
    let padded = payload_len / 4 * 4 + if payload_len % 4 == 0 {
        0
    } else {
        4
    };
    assert(padded == round4(payload_len as int));
    write_zeros(output, payload_len, padded);
    assert(head@ =~= sig_8bim() + seq![115u8, 50u8, 108u8, 121u8]);
    reveal(sai2_layer_block);
    assert(final(output)@ =~= old(output)@ + sai2_layer_block(chunks@, source@));
    Ok(())
}

// ---------------------------------------------------------------------------
// Layer record sizes
// ---------------------------------------------------------------------------

/// Size of the names in a record's extra data, with the mask and blending
/// range sizes before them.
pub open spec fn basic_extra_len(pascal: Seq<u8>, units: Seq<u16>) -> int {
    8 + pascal_name_len(pascal) + unicode_name_len(units)
}

/// The extra-data size of a source layer's record, or why it cannot be
/// computed.
pub open spec fn layer_extra(layer: Sai2Layer) -> Result<int, Seq<char>> {
    let basic = basic_extra_len(fallback_name(layer.id() as nat), utf16_of(layer.name_view()));
    if basic > usize::MAX {
        Err("PSD layer extra data is too large"@)
    } else {
        match sai2_block_error(layer.source_list()) {
            Some(message) => Err(message),
            None => {
                let with_block = basic + sai2_layer_block_len(layer.source_list());
                if with_block > usize::MAX {
                    Err("PSD layer extra data is too large"@)
                } else if layer.is_folder() {
                    if with_block + 24 > usize::MAX {
                        Err("PSD folder extra data is too large"@)
                    } else {
                        Ok(with_block + 24)
                    }
                } else {
                    Ok(with_block)
                }
            },
        }
    }
}

/// The extra-data size of a record, or why it cannot be computed. A
/// divider's is fixed: its names and its `lsct` block.
pub open spec fn record_extra(record: PsdRecord, layers: Seq<Sai2Layer>) -> Result<int, Seq<char>> {
    match record {
        PsdRecord::Divider => Ok(
            basic_extra_len(divider_name(), widen(divider_name())) + section_divider_block_len(false),
        ),
        PsdRecord::Source(i) => layer_extra(layers[i as int]),
    }
}

/// Size of the RLE plane of channel `c` of an RGBA image.
pub open spec fn plane_len(rgba: Seq<u8>, c: int, width: int, height: int) -> u32 {
    rle_len(row_sizes(channel_rows(rgba, c, width, height))) as u32
}

/// Size of an RLE plane of one repeated byte.
pub open spec fn solid_len(width: int, height: int) -> u32 {
    rle_len(row_sizes(solid_rows(0, width, height))) as u32
}

/// The channel sizes of a record.
pub open spec fn record_lengths(record: PsdRecord, layers: Seq<Sai2Layer>, width: int, height: int) -> Seq<u32> {
    match record {
        PsdRecord::Divider => Seq::empty(),
        PsdRecord::Source(i) => if layers[i as int].is_folder() {
            Seq::empty()
        } else {
            match layers[i as int].image_view() {
                Some(img) => seq![
                    plane_len(img.pixel_data(), 0, width, height),
                    plane_len(img.pixel_data(), 1, width, height),
                    plane_len(img.pixel_data(), 2, width, height),
                    plane_len(img.pixel_data(), 3, width, height),
                ],
                None => seq![
                    solid_len(width, height),
                    solid_len(width, height),
                    solid_len(width, height),
                    solid_len(width, height),
                ],
            }
        },
    }
}

/// Whether a record's layer has an image whose pixel buffer does not hold
/// `width` x `height` RGBA pixels.
pub open spec fn record_image_bad(record: PsdRecord, layers: Seq<Sai2Layer>, width: int, height: int) -> bool {
    match record {
        PsdRecord::Divider => false,
        PsdRecord::Source(i) => !layers[i as int].is_folder() && match layers[i as int].image_view() {
            Some(img) => !rgba_len_ok(img.pixel_data().len() as int, width, height),
            None => false,
        },
    }
}

proof fn lemma_size_sum_bound(sizes: Seq<u16>, bound: int)
    requires
        forall|i: int| 0 <= i < sizes.len() ==> #[trigger] sizes[i] <= bound,
    ensures
        0 <= size_sum(sizes) <= bound * sizes.len(),
    decreases sizes.len(),
{
    if sizes.len() > 0 {
        let init = sizes.drop_last();
        assert forall|i: int| 0 <= i < init.len() implies #[trigger] init[i] <= bound by {
            assert(init[i] == sizes[i]);
        }
        lemma_size_sum_bound(init, bound);
        assert(sizes[sizes.len() - 1] <= bound);
        assert(bound * init.len() + bound == bound * sizes.len()) by (nonlinear_arith)
            requires
                init.len() + 1 == sizes.len(),
        ;
    }
}

/// The extra-data size of a source layer's record.
fn layer_extra_len(layer: &Sai2Layer) -> (r: Result<usize, String>)
    ensures
        match layer_extra(*layer) {
            Err(message) => r matches Err(e) && e@ == message,
            Ok(len) => r matches Ok(v) && v as int == len,
        },
{
    let fallback = fallback_name_bytes(layer.id());
    let units = utf16_units(layer.name());
    let unicode_len = match units.len().checked_mul(2) {
        Some(v) => match v.checked_add(16) {
            Some(w) => w,
            None => {
                return Err("PSD layer extra data is too large".to_owned());
            },
        },
        None => {
            return Err("PSD layer extra data is too large".to_owned());
        },
    };
    let name_len: usize = if fallback.len() < 255 {
        fallback.len()
    } else {
        255
    };
    let pascal_len = (1 + name_len + 3) / 4 * 4;
    let length = match unicode_len.checked_add(8 + pascal_len) {
        Some(v) => v,
        None => {
            return Err("PSD layer extra data is too large".to_owned());
        },
    };
    let block = match sai2_layer_block_size(layer) {
        Ok(v) => v,
        Err(e) => {
            return Err(e);
        },
    };
    let length = match length.checked_add(block) {
        Some(v) => v,
        None => {
            return Err("PSD layer extra data is too large".to_owned());
        },
    };
    if layer.is_folder() {
        match length.checked_add(24) {
            Some(v) => Ok(v),
            None => Err("PSD folder extra data is too large".to_owned()),
        }
    } else {
        Ok(length)
    }
}

/// The extra-data size of a record.
fn record_extra_len(record: PsdRecord, layers: &[Sai2Layer]) -> (r: Result<usize, String>)
    requires
        record matches PsdRecord::Source(i) ==> i < layers@.len(),
    ensures
        match record_extra(record, layers@) {
            Err(message) => r matches Err(e) && e@ == message,
            Ok(len) => r matches Ok(v) && v as int == len,
        },
{
    match record {
        PsdRecord::Divider => Ok(84),
        PsdRecord::Source(i) => layer_extra_len(&layers[i]),
    }
}

/// The channel sizes of a record.
fn record_channel_lengths(record: PsdRecord, layers: &[Sai2Layer], width: u32, height: u32) -> (r:
    Result<Vec<u32>, String>)
    requires
        record matches PsdRecord::Source(i) ==> i < layers@.len(),
        1 <= width <= 30000,
        1 <= height <= 30000,
    ensures
        record_image_bad(record, layers@, width as int, height as int) ==> (r matches Err(e) && e@
            == "RGBA pixel length does not match PSD dimensions"@),
        !record_image_bad(record, layers@, width as int, height as int) ==> (r matches Ok(v) && v@
            == record_lengths(record, layers@, width as int, height as int)),
{
    let index = match record {
        PsdRecord::Divider => {
            return Ok(Vec::new());
        },
        PsdRecord::Source(i) => i,
    };
    let layer = &layers[index];
    if layer.is_folder() {
        return Ok(Vec::new());
    }
    let mut lengths: Vec<u32> = Vec::new();
    match layer.image() {
        Some(image) => {
            let mut channel: usize = 0;
            while channel < 4
                invariant
                    channel <= 4,
                    1 <= width <= 30000,
                    1 <= height <= 30000,
                    index < layers@.len(),
                    record == PsdRecord::Source(index),
                    !layers@[index as int].is_folder(),
                    layers@[index as int].image_view() == Some(*image),
                    channel > 0 ==> rgba_len_ok(
                        image.pixel_data().len() as int,
                        width as int,
                        height as int,
                    ),
                    lengths@ == Seq::new(
                        channel as nat,
                        |c: int| plane_len(image.pixel_data(), c, width as int, height as int),
                    ),
                decreases 4 - channel,
            {
                let len = match rle_rgba_plane_len(image.pixels(), channel, width, height) {
                    Ok(v) => v,
                    Err(e) => {
                        assert(!rgba_len_ok(
                            image.pixel_data().len() as int,
                            width as int,
                            height as int,
                        ));
                        assert(layers@[index as int].image_view() == Some(*image));
                        assert(record_image_bad(record, layers@, width as int, height as int));
                        return Err(e);
                    },
                };
                lengths.push(len);
                channel = channel + 1;
                assert(lengths@ =~= Seq::new(
                    channel as nat,
                    |c: int| plane_len(image.pixel_data(), c, width as int, height as int),
                ));
            }
        },
        None => {
            let solid = rle_solid_plane_len(width, height);
            lengths.push(solid);
            lengths.push(solid);
            lengths.push(solid);
            lengths.push(solid);
        },
    }
    assert(lengths@ =~= record_lengths(record, layers@, width as int, height as int));
    Ok(lengths)
}


// ---------------------------------------------------------------------------
// Layer records
// ---------------------------------------------------------------------------

/// PSD channel ID of the `i`-th channel: red 0, green 1, blue 2, and the
/// transparency mask -1 (as a 16-bit two's complement value).
pub open spec fn channel_id(i: int) -> int {
    if i == 3 {
        65535
    } else {
        i
    }
}

/// The channel table of a record: each channel's ID and size.
pub open spec fn channel_info(lengths: Seq<u32>) -> Seq<u8>
    decreases lengths.len(),
{
    if lengths.len() == 0 {
        Seq::empty()
    } else {
        channel_info(lengths.drop_last()) + be16(channel_id(lengths.len() - 1)) + be32(
            lengths.last() as int,
        )
    }
}

/// The bounds of a record (top, left, bottom, right): the whole canvas for
/// a record with channels, empty otherwise.
pub open spec fn layer_bounds(channels: int, width: int, height: int) -> Seq<u8> {
    if channels == 0 {
        be32(0) + be32(0) + be32(0) + be32(0)
    } else {
        be32(0) + be32(0) + be32(height) + be32(width)
    }
}

/// A layer's Photoshop blend-mode key.
pub open spec fn source_blend(layer: Sai2Layer) -> Seq<u8> {
    psd_blend_key(layer.blend_mode().as_bytes()@)
}

/// PSD opacity (0 to 255) of a SAI2 opacity (0 to 100), rounded.
pub open spec fn psd_opacity(opacity: int) -> int {
    (opacity * 255 + 50) / 100
}

/// PSD record flags: bit 0 protects transparency (alpha lock), bit 1 hides
/// the layer.
pub open spec fn psd_flags(layer: Sai2Layer) -> int {
    (if layer.alpha_locked() {
        1int
    } else {
        0
    }) + (if layer.flags() & 0x0001_0000 != 0 {
        0int
    } else {
        2
    })
}

/// The part of a divider record after its (empty) channel table.
#[verifier::opaque]
pub open spec fn divider_body(extra: int) -> Seq<u8> {
    seq![110u8, 111u8, 114u8, 109u8, 255u8, 0u8, 2u8, 0u8] + be32(extra) + be32(0) + be32(0)
        + pascal_name(divider_name()) + unicode_name(widen(divider_name())) + section_divider(3, None)
}

/// A record's header: bounds, channel table, blend mode, opacity, clipping,
/// flags and the extra data (empty mask and blending ranges, names, the
/// preserved source chunks, and a folder's `lsct` block).
#[verifier::opaque]
pub open spec fn record_header(
    record: PsdRecord,
    layers: Seq<Sai2Layer>,
    width: int,
    height: int,
    extra: int,
    lengths: Seq<u32>,
    source: Seq<u8>,
) -> Seq<u8> {
    layer_bounds(lengths.len() as int, width, height) + be16(lengths.len() as int) + channel_info(
        lengths,
    ) + sig_8bim() + match record {
        PsdRecord::Source(i) => record_flags(layers[i as int]) + source_extra(
            layers[i as int],
            extra,
            source,
        ),
        PsdRecord::Divider => divider_body(extra),
    }
}

/// A record's pixel data: the four RLE planes of its image, or four planes
/// of zero bytes for a layer without one; nothing for dividers and folders.
#[verifier::opaque]
pub open spec fn record_pixels(record: PsdRecord, layers: Seq<Sai2Layer>, width: int, height: int) -> Seq<u8> {
    match record {
        PsdRecord::Divider => Seq::empty(),
        PsdRecord::Source(i) => if layers[i as int].is_folder() {
            Seq::empty()
        } else {
            match layers[i as int].image_view() {
                Some(img) => rle_plane(channel_rows(img.pixel_data(), 0, width, height)) + rle_plane(
                    channel_rows(img.pixel_data(), 1, width, height),
                ) + rle_plane(channel_rows(img.pixel_data(), 2, width, height)) + rle_plane(
                    channel_rows(img.pixel_data(), 3, width, height),
                ),
                None => rle_plane(solid_rows(0, width, height)) + rle_plane(
                    solid_rows(0, width, height),
                ) + rle_plane(solid_rows(0, width, height)) + rle_plane(solid_rows(0, width, height)),
            }
        },
    }
}

/// The source-chunk error of a record's layer, if any.
pub open spec fn record_source_error(record: PsdRecord, layers: Seq<Sai2Layer>, len: int) -> Option<
    Seq<char>,
> {
    match record {
        PsdRecord::Divider => None,
        PsdRecord::Source(i) => chunks_source_error(layers[i as int].source_list(), len, 0),
    }
}

/// Appends the bounds and channel table of a record.
fn write_channel_table(output: &mut Vec<u8>, width: u32, height: u32, channel_lengths: &[u32])
    requires
        channel_lengths@.len() <= 4,
        width <= 30000,
        height <= 30000,
    ensures
        final(output)@ == old(output)@ + layer_bounds(channel_lengths@.len() as int, width as int, height as int)
            + be16(channel_lengths@.len() as int) + channel_info(channel_lengths@),
{
    let channels = channel_lengths.len();
    if channels == 0 {
        push_i32_be(output, 0);
        push_i32_be(output, 0);
        push_i32_be(output, 0);
        push_i32_be(output, 0);
    } else {
        push_i32_be(output, 0);
        push_i32_be(output, 0);
        push_i32_be(output, height as i32);
        push_i32_be(output, width as i32);
    }
    push_u16_be(output, channels as u16);
    let ghost head = output@;
    let mut i: usize = 0;
    while i < channels
        invariant
            i <= channels,
            channels == channel_lengths@.len() <= 4,
            output@ == head + channel_info(channel_lengths@.subrange(0, i as int)),
        decreases channels - i,
    {
        let id: i16 = if i == 3 {
            -1
        } else {
            i as i16
        };
        push_i16_be(output, id);
        push_u32_be(output, channel_lengths[i]);
        proof {
            assert(channel_lengths@.subrange(0, i + 1).drop_last() =~= channel_lengths@.subrange(
                0,
                i as int,
            ));
        }
        i = i + 1;
    }
    assert(channel_lengths@.subrange(0, channels as int) =~= channel_lengths@);
    assert(final(output)@ =~= old(output)@ + layer_bounds(
        channel_lengths@.len() as int,
        width as int,
        height as int,
    ) + be16(channel_lengths@.len() as int) + channel_info(channel_lengths@));
}

/// The blend mode and the opacity, clipping, flags and filler bytes of a
/// source layer's record.
#[verifier::opaque]
pub open spec fn record_flags(layer: Sai2Layer) -> Seq<u8> {
    source_blend(layer) + seq![
        psd_opacity(layer.opacity() as int) as u8,
        if layer.clipped_to_below() {
            1u8
        } else {
            0u8
        },
        psd_flags(layer) as u8,
        0u8,
    ]
}

/// The extra data of a source layer's record.
pub open spec fn source_extra(layer: Sai2Layer, extra: int, source: Seq<u8>) -> Seq<u8> {
    be32(extra) + be32(0) + be32(0) + pascal_name(fallback_name(layer.id() as nat)) + unicode_name(
        utf16_of(layer.name_view()),
    ) + sai2_layer_block(layer.source_list(), source) + if layer.is_folder() {
        section_divider(1, Some(source_blend(layer)))
    } else {
        Seq::empty()
    }
}

fn write_record_flags(output: &mut Vec<u8>, layer: &Sai2Layer)
    ensures
        final(output)@ == old(output)@ + record_flags(*layer),
{
    let blend = psd_blend_key_for(layer.blend_mode().as_bytes());
    push_slice(output, &blend);
    let opacity = ((layer.opacity() as u16 * 255 + 50) / 100) as u8;
    let clipping: u8 = if layer.clipped_to_below() {
        1
    } else {
        0
    };
    let flags: u8 = (if layer.alpha_locked() {
        1u8
    } else {
        0u8
    }) + if layer.visible() {
        0u8
    } else {
        2u8
    };
    output.push(opacity);
    output.push(clipping);
    output.push(flags);
    output.push(0);
    reveal(record_flags);
    assert(final(output)@ =~= old(output)@ + record_flags(*layer));
}

/// Appends the Pascal and Unicode names of a source layer's record.
fn write_layer_names(output: &mut Vec<u8>, layer: &Sai2Layer)
    requires
        16 + 2 * utf16_of(layer.name_view()).len() <= u32::MAX,
    ensures
        final(output)@ == old(output)@ + pascal_name(fallback_name(layer.id() as nat)) + unicode_name(
            utf16_of(layer.name_view()),
        ),
{
    let fallback = fallback_name_bytes(layer.id());
    write_pascal_name(output, fallback.as_slice());
    let units = utf16_units(layer.name());
    write_unicode_name(output, units.as_slice());
    assert(final(output)@ =~= old(output)@ + pascal_name(fallback_name(layer.id() as nat))
        + unicode_name(utf16_of(layer.name_view())));
}

proof fn lemma_layer_extra_ok(layer: Sai2Layer, extra: int)
    requires
        layer_extra(layer) == Ok::<int, Seq<char>>(extra),
    ensures
        sai2_block_error(layer.source_list()) is None,
        16 + 2 * utf16_of(layer.name_view()).len() <= extra,
{
    lemma_payload_at_least(layer.source_list());
}

/// Appends a source layer's record after its channel table, from the blend
/// mode on.
#[verifier::spinoff_prover]
fn write_source_record_body(
    output: &mut Vec<u8>,
    layer: &Sai2Layer,
    extra_len: usize,
    source: &[u8],
) -> (r: Result<(), String>)
    requires
        extra_len <= u32::MAX,
        layer_extra(*layer) == Ok::<int, Seq<char>>(extra_len as int),
    ensures
        match chunks_source_error(layer.source_list(), source@.len() as int, 0) {
            Some(message) => r matches Err(e) && e@ == message,
            None => r is Ok && final(output)@ == old(output)@ + record_flags(*layer) + source_extra(
                *layer,
                extra_len as int,
                source@,
            ),
        },
{
    proof {
        lemma_layer_extra_ok(*layer, extra_len as int);
    }
    write_record_flags(output, layer);
    push_u32_be(output, extra_len as u32);
    push_u32_be(output, 0);
    push_u32_be(output, 0);
    write_layer_names(output, layer);
    match write_sai2_layer_data(output, layer, source) {
        Ok(()) => {},
        Err(e) => {
            return Err(e);
        },
    }
    if layer.is_folder() {
        let blend = psd_blend_key_for(layer.blend_mode().as_bytes());
        write_section_divider(output, 1, Some(blend));
    }
    assert(final(output)@ =~= old(output)@ + record_flags(*layer) + source_extra(
        *layer,
        extra_len as int,
        source@,
    ));
    Ok(())
}

/// Appends a divider record after its channel table.
fn write_divider_body(output: &mut Vec<u8>, extra_len: u32)
    ensures
        final(output)@ == old(output)@ + divider_body(extra_len as int),
{
    let head: [u8; 8] = [110, 111, 114, 109, 255, 0, 2, 0];
    push_slice(output, &head);
    push_u32_be(output, extra_len);
    push_u32_be(output, 0);
    push_u32_be(output, 0);
    let name = divider_name_bytes();
    write_pascal_name(output, name.as_slice());
    let units = widen_bytes(name.as_slice());
    write_unicode_name(output, units.as_slice());
    write_section_divider(output, 3, None);
    reveal(divider_body);
    assert(final(output)@ =~= old(output)@ + divider_body(extra_len as int));
}

/// Appends a record's header; fails on the first source chunk that `source`
/// does not hold.
fn write_record(
    output: &mut Vec<u8>,
    record: PsdRecord,
    layers: &[Sai2Layer],
    extra_len: usize,
    width: u32,
    height: u32,
    channel_lengths: &[u32],
    source: &[u8],
) -> (r: Result<(), String>)
    requires
        record matches PsdRecord::Source(i) ==> i < layers@.len(),
        record_extra(record, layers@) == Ok::<int, Seq<char>>(extra_len as int),
        extra_len <= u32::MAX,
        channel_lengths@ == record_lengths(record, layers@, width as int, height as int),
        width <= 30000,
        height <= 30000,
    ensures
        match record_source_error(record, layers@, source@.len() as int) {
            Some(message) => r matches Err(e) && e@ == message,
            None => r is Ok && final(output)@ == old(output)@ + record_header(
                record,
                layers@,
                width as int,
                height as int,
                extra_len as int,
                channel_lengths@,
                source@,
            ),
        },
{
    write_channel_table(output, width, height, channel_lengths);
    let sig: [u8; 4] = [56, 66, 73, 77];
    push_slice(output, &sig);
    match record {
        PsdRecord::Source(i) => {
            match write_source_record_body(output, &layers[i], extra_len, source) {
                Ok(()) => {},
                Err(e) => {
                    return Err(e);
                },
            }
        },
        PsdRecord::Divider => {
            write_divider_body(output, extra_len as u32);
        },
    }
    reveal(record_header);
    assert(sig@ =~= sig_8bim());
    assert(final(output)@ =~= old(output)@ + record_header(
        record,
        layers@,
        width as int,
        height as int,
        extra_len as int,
        channel_lengths@,
        source@,
    ));
    Ok(())
}

/// Appends a record's pixel data.
fn write_record_pixels(
    output: &mut Vec<u8>,
    record: PsdRecord,
    layers: &[Sai2Layer],
    width: u32,
    height: u32,
)
    requires
        record matches PsdRecord::Source(i) ==> i < layers@.len(),
        !record_image_bad(record, layers@, width as int, height as int),
        1 <= width <= 30000,
        height <= 30000,
    ensures
        final(output)@ == old(output)@ + record_pixels(record, layers@, width as int, height as int),
{
    reveal(record_pixels);
    let index = match record {
        PsdRecord::Divider => {
            assert(final(output)@ =~= old(output)@ + record_pixels(
                record,
                layers@,
                width as int,
                height as int,
            ));
            return;
        },
        PsdRecord::Source(i) => i,
    };
    let layer = &layers[index];
    if layer.is_folder() {
        assert(final(output)@ =~= old(output)@ + record_pixels(
            record,
            layers@,
            width as int,
            height as int,
        ));
        return;
    }
    match layer.image() {
        Some(image) => {
            let _ = write_rle_rgba_plane(output, image.pixels(), 0, width, height);
            let _ = write_rle_rgba_plane(output, image.pixels(), 1, width, height);
            let _ = write_rle_rgba_plane(output, image.pixels(), 2, width, height);
            let _ = write_rle_rgba_plane(output, image.pixels(), 3, width, height);
        },
        None => {
            write_rle_solid_plane(output, 0, width, height);
            write_rle_solid_plane(output, 0, width, height);
            write_rle_solid_plane(output, 0, width, height);
            write_rle_solid_plane(output, 0, width, height);
        },
    }
    assert(final(output)@ =~= old(output)@ + record_pixels(
        record,
        layers@,
        width as int,
        height as int,
    ));
}

/// The record of the white background layer that stands below the others
/// when the canvas is opaque.
#[verifier::opaque]
pub open spec fn background_record(width: int, height: int) -> Seq<u8> {
    let s = solid_len(width, height);
    layer_bounds(4, width, height) + be16(4) + channel_info(seq![s, s, s, s]) + sig_8bim() + seq![
        110u8,
        111u8,
        114u8,
        109u8,
        255u8,
        0u8,
        0u8,
        0u8,
    ] + be32(92) + be32(0) + be32(0) + pascal_name(background_name()) + unicode_name(
        widen(background_name()),
    )
}

/// The pixel data of the white background layer.
pub open spec fn background_pixels(width: int, height: int) -> Seq<u8> {
    rle_plane(solid_rows(255, width, height)) + rle_plane(solid_rows(255, width, height)) + rle_plane(
        solid_rows(255, width, height),
    ) + rle_plane(solid_rows(255, width, height))
}

fn write_background_record(output: &mut Vec<u8>, width: u32, height: u32, solid: u32)
    requires
        1 <= width <= 30000,
        1 <= height <= 30000,
        solid == solid_len(width as int, height as int),
    ensures
        final(output)@ == old(output)@ + background_record(width as int, height as int),
{
    let lengths: Vec<u32> = vec![solid, solid, solid, solid];
    write_channel_table(output, width, height, lengths.as_slice());
    let head: [u8; 12] = [56, 66, 73, 77, 110, 111, 114, 109, 255, 0, 0, 0];
    push_slice(output, &head);
    push_u32_be(output, 92);
    push_u32_be(output, 0);
    push_u32_be(output, 0);
    let name = background_name_bytes();
    write_pascal_name(output, name.as_slice());
    let units = widen_bytes(name.as_slice());
    write_unicode_name(output, units.as_slice());
    reveal(background_record);
    assert(lengths@ =~= seq![solid, solid, solid, solid]);
    assert(head@ =~= sig_8bim() + seq![110u8, 111u8, 114u8, 109u8, 255u8, 0u8, 0u8, 0u8]);
    assert(final(output)@ =~= old(output)@ + background_record(width as int, height as int));
}


// ---------------------------------------------------------------------------
// The PSD file
// ---------------------------------------------------------------------------

/// Why a layer cannot be exported, if it cannot: a raster layer without
/// decoded pixels, an image of another size than the canvas, or a shape
/// layer, whose geometry is not decoded.
pub open spec fn layer_check_error(layer: Sai2Layer, width: int, height: int) -> Option<Seq<char>> {
    if layer.layer_type().as_bytes()@ == fourcc(110, 111, 114, 109) && layer.image_view() is None {
        Some(
            "raster layer "@ + decimal(layer.id() as nat) + " ("@ + layer.name_view()
                + ") has no decoded pixels"@,
        )
    } else if layer.image_view() matches Some(img) && (img.width() != width || img.height()
        != height) {
        Some("layer "@ + decimal(layer.id() as nat) + " dimensions do not match the canvas"@)
    } else if layer.layer_type().as_bytes()@ == fourcc(115, 104, 97, 112) {
        Some(
            "shape layer "@ + decimal(layer.id() as nat) + " ("@ + layer.name_view()
                + ") has no decoded geometry"@,
        )
    } else {
        None
    }
}

/// The first layer error among `layers[k..]`, if any.
pub open spec fn layers_check_error(layers: Seq<Sai2Layer>, width: int, height: int, k: int) -> Option<
    Seq<char>,
>
    decreases layers.len() - k,
{
    if 0 <= k < layers.len() {
        match layer_check_error(layers[k], width, height) {
            Some(message) => Some(message),
            None => layers_check_error(layers, width, height, k + 1),
        }
    } else {
        None
    }
}

/// The first extra-size error among `records[k..]`, if any.
pub open spec fn extras_error(records: Seq<PsdRecord>, layers: Seq<Sai2Layer>, k: int) -> Option<
    Seq<char>,
>
    decreases records.len() - k,
{
    if 0 <= k < records.len() {
        match record_extra(records[k], layers) {
            Err(message) => Some(message),
            Ok(_) => extras_error(records, layers, k + 1),
        }
    } else {
        None
    }
}

/// The first source-chunk error among `records[k..]`, if any.
pub open spec fn records_source_error(records: Seq<PsdRecord>, layers: Seq<Sai2Layer>, len: int, k: int) -> Option<
    Seq<char>,
>
    decreases records.len() - k,
{
    if 0 <= k < records.len() {
        match record_source_error(records[k], layers, len) {
            Some(message) => Some(message),
            None => records_source_error(records, layers, len, k + 1),
        }
    } else {
        None
    }
}

/// The extra-data size of each record.
pub open spec fn extras_of(records: Seq<PsdRecord>, layers: Seq<Sai2Layer>) -> Seq<int> {
    Seq::new(
        records.len(),
        |k: int|
            match record_extra(records[k], layers) {
                Ok(e) => e,
                Err(_) => 0,
            },
    )
}

/// The channel sizes of each record.
pub open spec fn lengths_of(records: Seq<PsdRecord>, layers: Seq<Sai2Layer>, width: int, height: int) -> Seq<
    Seq<u32>,
> {
    Seq::new(records.len(), |k: int| record_lengths(records[k], layers, width, height))
}

/// The size of a layer record with `channels` channels and `extra` bytes of
/// extra data.
pub open spec fn layer_record_len(extra: int, channels: int) -> int {
    34 + 6 * channels + extra
}

/// The total size of the records.
pub open spec fn records_len(extras: Seq<int>, lengths: Seq<Seq<u32>>) -> int
    decreases extras.len(),
{
    if extras.len() == 0 || lengths.len() == 0 {
        0
    } else {
        records_len(extras.drop_last(), lengths.drop_last()) + layer_record_len(
            extras.last(),
            lengths.last().len() as int,
        )
    }
}

/// The sum of 32-bit sizes.
pub open spec fn u32_sum(sizes: Seq<u32>) -> int
    decreases sizes.len(),
{
    if sizes.len() == 0 {
        0
    } else {
        u32_sum(sizes.drop_last()) + sizes.last()
    }
}

/// The total size of the records' channel data.
pub open spec fn image_data_len(lengths: Seq<Seq<u32>>) -> int
    decreases lengths.len(),
{
    if lengths.len() == 0 {
        0
    } else {
        image_data_len(lengths.drop_last()) + u32_sum(lengths.last())
    }
}

/// The records' headers, one after another.
pub open spec fn headers_of(
    records: Seq<PsdRecord>,
    layers: Seq<Sai2Layer>,
    width: int,
    height: int,
    extras: Seq<int>,
    lengths: Seq<Seq<u32>>,
    source: Seq<u8>,
) -> Seq<u8>
    decreases records.len(),
{
    if records.len() == 0 {
        Seq::empty()
    } else {
        let k = records.len() - 1;
        headers_of(
            records.drop_last(),
            layers,
            width,
            height,
            extras,
            lengths,
            source,
        ) + record_header(records[k], layers, width, height, extras[k], lengths[k], source)
    }
}

/// The records' pixel data, one after another.
pub open spec fn pixels_of(records: Seq<PsdRecord>, layers: Seq<Sai2Layer>, width: int, height: int) -> Seq<u8>
    decreases records.len(),
{
    if records.len() == 0 {
        Seq::empty()
    } else {
        pixels_of(records.drop_last(), layers, width, height) + record_pixels(
            records.last(),
            layers,
            width,
            height,
        )
    }
}

/// The sizes that the file's headers announce for a list of records.
pub ghost struct PsdSizes {
    /// Total size of the layer records, background included.
    pub records: int,
    /// Total size of the channel data, background included.
    pub image: int,
    /// The layer information before padding: count, records, channel data.
    pub info: int,
    /// Number of PSD layers.
    pub count: int,
}

/// The sizes for records with the given extra-data and channel sizes.
pub open spec fn sizes_from(
    extras: Seq<int>,
    lengths: Seq<Seq<u32>>,
    solid: int,
    records: int,
    white_background: bool,
) -> PsdSizes {
    let rec = records_len(extras, lengths) + if white_background {
        layer_record_len(92, 4)
    } else {
        0
    };
    let img = image_data_len(lengths) + if white_background {
        4 * solid
    } else {
        0
    };
    PsdSizes {
        records: rec,
        image: img,
        info: 2 + rec + img,
        count: records + if white_background {
            1int
        } else {
            0
        },
    }
}

pub open spec fn psd_sizes(
    records: Seq<PsdRecord>,
    layers: Seq<Sai2Layer>,
    width: int,
    height: int,
    white_background: bool,
) -> PsdSizes {
    sizes_from(
        extras_of(records, layers),
        lengths_of(records, layers, width, height),
        solid_len(width, height) as int,
        records.len() as int,
        white_background,
    )
}

/// The layer information size rounded up to an even number.
pub open spec fn even_info(sizes: PsdSizes) -> int {
    sizes.info + sizes.info % 2
}

/// Why the sizes cannot be written, if they cannot.
pub open spec fn sizes_error(sizes: PsdSizes) -> Option<Seq<char>> {
    if sizes.records > usize::MAX {
        Some("PSD layer records are too large"@)
    } else if sizes.count > usize::MAX {
        Some("PSD has too many layers"@)
    } else if sizes.image > usize::MAX {
        Some("PSD layer image data is too large"@)
    } else if sizes.info > usize::MAX {
        Some("PSD layer information is too large"@)
    } else if even_info(sizes) + 8 > usize::MAX {
        Some("PSD layer and mask section is too large"@)
    } else if even_info(sizes) + 8 > u32::MAX {
        Some("PSD section exceeds the 4 GiB format limit"@)
    } else if sizes.count > 32767 {
        Some("PSD has too many layers"@)
    } else {
        None
    }
}

/// Why a list of records cannot be written, if it cannot, in the order in
/// which the writer meets the problems.
pub open spec fn records_error(
    records: Seq<PsdRecord>,
    layers: Seq<Sai2Layer>,
    width: int,
    height: int,
    composite: Seq<u8>,
    source: Seq<u8>,
    white_background: bool,
) -> Option<Seq<char>> {
    if exists|k: int| 0 <= k < records.len() && #[trigger] record_image_bad(records[k], layers, width, height) {
        Some("RGBA pixel length does not match PSD dimensions"@)
    } else if extras_error(records, layers, 0) is Some {
        extras_error(records, layers, 0)
    } else if sizes_error(psd_sizes(records, layers, width, height, white_background)) is Some {
        sizes_error(psd_sizes(records, layers, width, height, white_background))
    } else if records_source_error(records, layers, source.len() as int, 0) is Some {
        records_source_error(records, layers, source.len() as int, 0)
    } else if !rgba_len_ok(composite.len() as int, width, height) {
        Some("RGBA pixel length does not match PSD dimensions"@)
    } else {
        None
    }
}

/// Why the layers cannot be written as a PSD file, if they cannot.
pub open spec fn psd_error(
    width: u32,
    height: u32,
    layers: Seq<Sai2Layer>,
    composite: RgbaImage,
    source: Seq<u8>,
    white_background: bool,
) -> Option<Seq<char>> {
    if width == 0 || height == 0 || width > 30000 || height > 30000 {
        Some(
            "PSD 1.0 dimensions must be within 1..=30000, found "@ + decimal(width as nat) + " x "@
                + decimal(height as nat),
        )
    } else if composite.width() != width || composite.height() != height {
        Some("composite dimensions do not match the SAI2 canvas"@)
    } else if layers_check_error(layers, width as int, height as int, 0) is Some {
        layers_check_error(layers, width as int, height as int, 0)
    } else {
        match psd_records(layers) {
            Err(message) => Some(message),
            Ok(records) => records_error(
                records,
                layers,
                width as int,
                height as int,
                composite.pixel_data(),
                source,
                white_background,
            ),
        }
    }
}

/// The PSD file header: signature, version 1, reserved bytes, four
/// channels, the canvas size, depth 8, RGB mode, empty colour-mode data and
/// image resources, then the sizes of the layer-and-mask section and of the
/// layer information, and the layer count.
pub open spec fn psd_header(width: int, height: int, section: int, info: int, count: int) -> Seq<u8> {
    seq![56u8, 66u8, 80u8, 83u8] + be16(1) + zeros(6) + be16(4) + be32(height) + be32(width) + be16(
        8,
    ) + be16(3) + be32(0) + be32(0) + be32(section) + be32(info) + be16(count)
}

/// The PSD file of the layers (bottom layer first, behind an optional white
/// background) and the merged image.
pub open spec fn psd_file(
    width: u32,
    height: u32,
    layers: Seq<Sai2Layer>,
    composite: RgbaImage,
    source: Seq<u8>,
    white_background: bool,
) -> Seq<u8> {
    let w = width as int;
    let h = height as int;
    match psd_records(layers) {
        Err(_) => Seq::empty(),
        Ok(records) => {
            let sizes = psd_sizes(records, layers, w, h, white_background);
            psd_header(w, h, even_info(sizes) + 8, even_info(sizes), sizes.count) + (if white_background {
                background_record(w, h)
            } else {
                Seq::empty()
            }) + headers_of(
                records,
                layers,
                w,
                h,
                extras_of(records, layers),
                lengths_of(records, layers, w, h),
                source,
            ) + (if white_background {
                background_pixels(w, h)
            } else {
                Seq::empty()
            }) + pixels_of(records, layers, w, h) + (if sizes.info % 2 == 1 {
                seq![0u8]
            } else {
                Seq::empty()
            }) + be32(0) + composite_plane(composite.pixel_data(), w, h)
        },
    }
}


/// Checks every layer in order; fails on the first one that cannot be
/// exported.
fn check_layers(layers: &[Sai2Layer], width: u32, height: u32) -> (r: Result<(), String>)
    ensures
        match layers_check_error(layers@, width as int, height as int, 0) {
            Some(message) => r matches Err(e) && e@ == message,
            None => r is Ok,
        },
{
    let mut i: usize = 0;
    while i < layers.len()
        invariant
            i <= layers@.len(),
            layers_check_error(layers@, width as int, height as int, 0) == layers_check_error(
                layers@,
                width as int,
                height as int,
                i as int,
            ),
        decreases layers@.len() - i,
    {
        let layer = &layers[i];
        if layer.layer_type().is([110, 111, 114, 109]) && layer.image().is_none() {
            let mut message = String::new();
            append_str(&mut message, "raster layer ");
            append_decimal(&mut message, layer.id() as u64);
            append_str(&mut message, " (");
            append_str(&mut message, layer.name());
            append_str(&mut message, ") has no decoded pixels");
            return Err(message);
        }
        match layer.image() {
            Some(image) => {
                if image.width() != width || image.height() != height {
                    let mut message = String::new();
                    append_str(&mut message, "layer ");
                    append_decimal(&mut message, layer.id() as u64);
                    append_str(&mut message, " dimensions do not match the canvas");
                    return Err(message);
                }
            },
            None => {},
        }
        if layer.layer_type().is([115, 104, 97, 112]) {
            let mut message = String::new();
            append_str(&mut message, "shape layer ");
            append_decimal(&mut message, layer.id() as u64);
            append_str(&mut message, " (");
            append_str(&mut message, layer.name());
            append_str(&mut message, ") has no decoded geometry");
            return Err(message);
        }
        i = i + 1;
    }
    Ok(())
}

/// The channel sizes of every record; fails if a record's image does not
/// hold a canvas of pixels.
fn plan_channel_lengths(records: &[PsdRecord], layers: &[Sai2Layer], width: u32, height: u32) -> (r:
    Result<Vec<Vec<u32>>, String>)
    requires
        forall|k: int|
            0 <= k < records@.len() ==> (#[trigger] records@[k] matches PsdRecord::Source(i) ==> i
                < layers@.len()),
        1 <= width <= 30000,
        1 <= height <= 30000,
    ensures
        (exists|k: int|
            0 <= k < records@.len() && #[trigger] record_image_bad(
                records@[k],
                layers@,
                width as int,
                height as int,
            )) ==> (r matches Err(e) && e@ == "RGBA pixel length does not match PSD dimensions"@),
        !(exists|k: int|
            0 <= k < records@.len() && #[trigger] record_image_bad(
                records@[k],
                layers@,
                width as int,
                height as int,
            )) ==> (r matches Ok(v) && v@.len() == records@.len() && forall|k: int|
            0 <= k < records@.len() ==> #[trigger] v@[k]@ == record_lengths(
                records@[k],
                layers@,
                width as int,
                height as int,
            )),
{
    let mut all: Vec<Vec<u32>> = Vec::new();
    let mut k: usize = 0;
    while k < records.len()
        invariant
            k <= records@.len(),
            1 <= width <= 30000,
            1 <= height <= 30000,
            forall|j: int|
                0 <= j < records@.len() ==> (#[trigger] records@[j] matches PsdRecord::Source(i)
                    ==> i < layers@.len()),
            forall|j: int|
                0 <= j < k ==> !#[trigger] record_image_bad(
                    records@[j],
                    layers@,
                    width as int,
                    height as int,
                ),
            all@.len() == k,
            forall|j: int|
                0 <= j < k ==> #[trigger] all@[j]@ == record_lengths(
                    records@[j],
                    layers@,
                    width as int,
                    height as int,
                ),
        decreases records@.len() - k,
    {
        let lengths = match record_channel_lengths(records[k], layers, width, height) {
            Ok(v) => v,
            Err(e) => {
                return Err(e);
            },
        };
        all.push(lengths);
        k = k + 1;
    }
    Ok(all)
}

/// The extra-data size of every record; fails on the first record whose
/// size cannot be computed.
fn plan_extra_lens(records: &[PsdRecord], layers: &[Sai2Layer]) -> (r: Result<Vec<usize>, String>)
    requires
        forall|k: int|
            0 <= k < records@.len() ==> (#[trigger] records@[k] matches PsdRecord::Source(i) ==> i
                < layers@.len()),
    ensures
        match extras_error(records@, layers@, 0) {
            Some(message) => r matches Err(e) && e@ == message,
            None => r matches Ok(v) && v@.len() == records@.len() && forall|k: int|
                0 <= k < records@.len() ==> record_extra(records@[k], layers@) == Ok::<
                    int,
                    Seq<char>,
                >(#[trigger] v@[k] as int),
        },
{
    let mut all: Vec<usize> = Vec::new();
    let mut k: usize = 0;
    while k < records.len()
        invariant
            k <= records@.len(),
            forall|j: int|
                0 <= j < records@.len() ==> (#[trigger] records@[j] matches PsdRecord::Source(i)
                    ==> i < layers@.len()),
            extras_error(records@, layers@, 0) == extras_error(records@, layers@, k as int),
            all@.len() == k,
            forall|j: int|
                0 <= j < k ==> record_extra(records@[j], layers@) == Ok::<int, Seq<char>>(
                    #[trigger] all@[j] as int,
                ),
        decreases records@.len() - k,
    {
        let extra = match record_extra_len(records[k], layers) {
            Ok(v) => v,
            Err(e) => {
                return Err(e);
            },
        };
        all.push(extra);
        k = k + 1;
    }
    Ok(all)
}


proof fn lemma_records_len_prefix(extras: Seq<int>, lengths: Seq<Seq<u32>>, k: int)
    requires
        extras.len() == lengths.len(),
        0 <= k <= extras.len(),
        forall|i: int| 0 <= i < extras.len() ==> #[trigger] extras[i] >= 0,
    ensures
        0 <= records_len(extras.subrange(0, k), lengths.subrange(0, k)) <= records_len(
            extras,
            lengths,
        ),
    decreases extras.len(),
{
    if k == extras.len() {
        assert(extras.subrange(0, k) =~= extras);
        assert(lengths.subrange(0, k) =~= lengths);
        lemma_records_len_nonneg(extras, lengths);
    } else {
        let e2 = extras.drop_last();
        let l2 = lengths.drop_last();
        assert forall|i: int| 0 <= i < e2.len() implies #[trigger] e2[i] >= 0 by {
            assert(e2[i] == extras[i]);
        }
        lemma_records_len_prefix(e2, l2, k);
        assert(e2.subrange(0, k) =~= extras.subrange(0, k));
        assert(l2.subrange(0, k) =~= lengths.subrange(0, k));
        assert(extras[extras.len() - 1] >= 0);
    }
}

proof fn lemma_records_len_nonneg(extras: Seq<int>, lengths: Seq<Seq<u32>>)
    requires
        forall|i: int| 0 <= i < extras.len() ==> #[trigger] extras[i] >= 0,
    ensures
        records_len(extras, lengths) >= 0,
    decreases extras.len(),
{
    if extras.len() > 0 && lengths.len() > 0 {
        let e2 = extras.drop_last();
        assert forall|i: int| 0 <= i < e2.len() implies #[trigger] e2[i] >= 0 by {
            assert(e2[i] == extras[i]);
        }
        lemma_records_len_nonneg(e2, lengths.drop_last());
        assert(extras[extras.len() - 1] >= 0);
    }
}

proof fn lemma_image_len_prefix(lengths: Seq<Seq<u32>>, k: int)
    requires
        0 <= k <= lengths.len(),
    ensures
        0 <= image_data_len(lengths.subrange(0, k)) <= image_data_len(lengths),
    decreases lengths.len(),
{
    if k == lengths.len() {
        assert(lengths.subrange(0, k) =~= lengths);
        lemma_image_len_nonneg(lengths);
    } else {
        let l2 = lengths.drop_last();
        lemma_image_len_prefix(l2, k);
        assert(l2.subrange(0, k) =~= lengths.subrange(0, k));
        lemma_u32_sum_nonneg(lengths.last());
    }
}

proof fn lemma_image_len_nonneg(lengths: Seq<Seq<u32>>)
    ensures
        image_data_len(lengths) >= 0,
    decreases lengths.len(),
{
    if lengths.len() > 0 {
        lemma_image_len_nonneg(lengths.drop_last());
        lemma_u32_sum_nonneg(lengths.last());
    }
}

proof fn lemma_u32_sum_nonneg(sizes: Seq<u32>)
    ensures
        u32_sum(sizes) >= 0,
    decreases sizes.len(),
{
    if sizes.len() > 0 {
        lemma_u32_sum_nonneg(sizes.drop_last());
    }
}

/// The total size of the records, if it fits.
fn sum_records_len(
    extras: &[usize],
    lengths: &[Vec<u32>],
    Ghost(ex): Ghost<Seq<int>>,
    Ghost(ln): Ghost<Seq<Seq<u32>>>,
) -> (r: Option<usize>)
    requires
        extras@.len() == lengths@.len() == ex.len() == ln.len(),
        forall|k: int| 0 <= k < ex.len() ==> #[trigger] ex[k] == extras@[k] as int,
        forall|k: int| 0 <= k < ln.len() ==> #[trigger] ln[k] == lengths@[k]@,
        forall|k: int| 0 <= k < ln.len() ==> #[trigger] ln[k].len() <= 4,
    ensures
        records_len(ex, ln) >= 0,
        records_len(ex, ln) <= usize::MAX ==> r == Some(records_len(ex, ln) as usize),
        records_len(ex, ln) > usize::MAX ==> r is None,
{
    proof {
        assert forall|i: int| 0 <= i < ex.len() implies #[trigger] ex[i] >= 0 by {
            assert(ex[i] == extras@[i] as int);
        }
        lemma_records_len_nonneg(ex, ln);
    }
    let mut total: usize = 0;
    let mut k: usize = 0;
    while k < extras.len()
        invariant
            k <= extras@.len(),
            extras@.len() == lengths@.len() == ex.len() == ln.len(),
            forall|i: int| 0 <= i < ex.len() ==> #[trigger] ex[i] == extras@[i] as int,
            forall|i: int| 0 <= i < ln.len() ==> #[trigger] ln[i] == lengths@[i]@,
            forall|i: int| 0 <= i < ln.len() ==> #[trigger] ln[i].len() <= 4,
            forall|i: int| 0 <= i < ex.len() ==> #[trigger] ex[i] >= 0,
            total == records_len(ex.subrange(0, k as int), ln.subrange(0, k as int)),
        decreases extras@.len() - k,
    {
        proof {
            lemma_records_len_prefix(ex, ln, k + 1);
            assert(ex.subrange(0, k + 1).drop_last() =~= ex.subrange(0, k as int));
            assert(ln.subrange(0, k + 1).drop_last() =~= ln.subrange(0, k as int));
            assert(ln[k as int] == lengths@[k as int]@);
        }
        let channels = lengths[k].len();
        let record = match (34 + 6 * channels).checked_add(extras[k]) {
            Some(v) => v,
            None => {
                return None;
            },
        };
        total = match total.checked_add(record) {
            Some(v) => v,
            None => {
                return None;
            },
        };
        k = k + 1;
    }
    assert(ex.subrange(0, ex.len() as int) =~= ex);
    assert(ln.subrange(0, ln.len() as int) =~= ln);
    Some(total)
}

/// The sum of 32-bit sizes, if it fits.
fn sum_u32(sizes: &[u32]) -> (r: Option<usize>)
    ensures
        u32_sum(sizes@) <= usize::MAX ==> r == Some(u32_sum(sizes@) as usize),
        u32_sum(sizes@) > usize::MAX ==> r is None,
{
    let mut total: usize = 0;
    let mut k: usize = 0;
    while k < sizes.len()
        invariant
            k <= sizes@.len(),
            total == u32_sum(sizes@.subrange(0, k as int)),
        decreases sizes@.len() - k,
    {
        proof {
            assert(sizes@.subrange(0, k + 1).drop_last() =~= sizes@.subrange(0, k as int));
            lemma_u32_sum_prefix(sizes@, k + 1);
        }
        total = match total.checked_add(sizes[k] as usize) {
            Some(v) => v,
            None => {
                return None;
            },
        };
        k = k + 1;
    }
    assert(sizes@.subrange(0, sizes@.len() as int) =~= sizes@);
    Some(total)
}

proof fn lemma_u32_sum_prefix(sizes: Seq<u32>, k: int)
    requires
        0 <= k <= sizes.len(),
    ensures
        0 <= u32_sum(sizes.subrange(0, k)) <= u32_sum(sizes),
    decreases sizes.len(),
{
    if k == sizes.len() {
        assert(sizes.subrange(0, k) =~= sizes);
        lemma_u32_sum_nonneg(sizes);
    } else {
        let s2 = sizes.drop_last();
        lemma_u32_sum_prefix(s2, k);
        assert(s2.subrange(0, k) =~= sizes.subrange(0, k));
    }
}

/// The total size of the records' channel data, if it fits.
fn sum_image_len(lengths: &[Vec<u32>], Ghost(ln): Ghost<Seq<Seq<u32>>>) -> (r: Option<usize>)
    requires
        lengths@.len() == ln.len(),
        forall|k: int| 0 <= k < ln.len() ==> #[trigger] ln[k] == lengths@[k]@,
    ensures
        image_data_len(ln) >= 0,
        image_data_len(ln) <= usize::MAX ==> r == Some(image_data_len(ln) as usize),
        image_data_len(ln) > usize::MAX ==> r is None,
{
    proof {
        lemma_image_len_nonneg(ln);
    }
    let mut total: usize = 0;
    let mut k: usize = 0;
    while k < lengths.len()
        invariant
            k <= lengths@.len(),
            lengths@.len() == ln.len(),
            forall|i: int| 0 <= i < ln.len() ==> #[trigger] ln[i] == lengths@[i]@,
            total == image_data_len(ln.subrange(0, k as int)),
        decreases lengths@.len() - k,
    {
        proof {
            lemma_image_len_prefix(ln, k + 1);
            assert(ln.subrange(0, k + 1).drop_last() =~= ln.subrange(0, k as int));
            assert(ln[k as int] == lengths@[k as int]@);
            lemma_u32_sum_nonneg(ln[k as int]);
        }
        let part = match sum_u32(lengths[k].as_slice()) {
            Some(v) => v,
            None => {
                return None;
            },
        };
        total = match total.checked_add(part) {
            Some(v) => v,
            None => {
                return None;
            },
        };
        k = k + 1;
    }
    assert(ln.subrange(0, ln.len() as int) =~= ln);
    Some(total)
}


/// Appends every record's header; fails on the first source chunk that
/// `source` does not hold.
fn write_all_records(
    output: &mut Vec<u8>,
    records: &[PsdRecord],
    layers: &[Sai2Layer],
    extras: &[usize],
    lengths: &[Vec<u32>],
    width: u32,
    height: u32,
    source: &[u8],
) -> (r: Result<(), String>)
    requires
        forall|k: int|
            0 <= k < records@.len() ==> (#[trigger] records@[k] matches PsdRecord::Source(i) ==> i
                < layers@.len()),
        extras@.len() == records@.len(),
        lengths@.len() == records@.len(),
        forall|k: int|
            0 <= k < records@.len() ==> record_extra(records@[k], layers@) == Ok::<int, Seq<char>>(
                #[trigger] extras@[k] as int,
            ),
        forall|k: int| 0 <= k < records@.len() ==> #[trigger] extras@[k] <= u32::MAX,
        forall|k: int|
            0 <= k < records@.len() ==> #[trigger] lengths@[k]@ == record_lengths(
                records@[k],
                layers@,
                width as int,
                height as int,
            ),
        width <= 30000,
        height <= 30000,
    ensures
        match records_source_error(records@, layers@, source@.len() as int, 0) {
            Some(message) => r matches Err(e) && e@ == message,
            None => r is Ok && final(output)@ == old(output)@ + headers_of(
                records@,
                layers@,
                width as int,
                height as int,
                extras_of(records@, layers@),
                lengths_of(records@, layers@, width as int, height as int),
                source@,
            ),
        },
{
    let ghost ex = extras_of(records@, layers@);
    let ghost ln = lengths_of(records@, layers@, width as int, height as int);
    let ghost len = source@.len() as int;
    let mut k: usize = 0;
    while k < records.len()
        invariant
            k <= records@.len(),
            len == source@.len(),
            ex == extras_of(records@, layers@),
            ln == lengths_of(records@, layers@, width as int, height as int),
            forall|j: int|
                0 <= j < records@.len() ==> (#[trigger] records@[j] matches PsdRecord::Source(i)
                    ==> i < layers@.len()),
            extras@.len() == records@.len(),
            lengths@.len() == records@.len(),
            forall|j: int|
                0 <= j < records@.len() ==> record_extra(records@[j], layers@) == Ok::<
                    int,
                    Seq<char>,
                >(#[trigger] extras@[j] as int),
            forall|j: int| 0 <= j < records@.len() ==> #[trigger] extras@[j] <= u32::MAX,
            forall|j: int|
                0 <= j < records@.len() ==> #[trigger] lengths@[j]@ == record_lengths(
                    records@[j],
                    layers@,
                    width as int,
                    height as int,
                ),
            width <= 30000,
            height <= 30000,
            records_source_error(records@, layers@, len, 0) == records_source_error(
                records@,
                layers@,
                len,
                k as int,
            ),
            output@ == old(output)@ + headers_of(
                records@.subrange(0, k as int),
                layers@,
                width as int,
                height as int,
                ex,
                ln,
                source@,
            ),
        decreases records@.len() - k,
    {
        match write_record(
            output,
            records[k],
            layers,
            extras[k],
            width,
            height,
            lengths[k].as_slice(),
            source,
        ) {
            Ok(()) => {},
            Err(e) => {
                return Err(e);
            },
        }
        proof {
            let pre = records@.subrange(0, k + 1);
            assert(pre.drop_last() =~= records@.subrange(0, k as int));
            assert(ex[k as int] == extras@[k as int] as int);
            assert(ln[k as int] == lengths@[k as int]@);
        }
        k = k + 1;
    }
    assert(records@.subrange(0, records@.len() as int) =~= records@);
    Ok(())
}

/// Appends every record's pixel data.
fn write_all_pixels(
    output: &mut Vec<u8>,
    records: &[PsdRecord],
    layers: &[Sai2Layer],
    width: u32,
    height: u32,
)
    requires
        forall|k: int|
            0 <= k < records@.len() ==> (#[trigger] records@[k] matches PsdRecord::Source(i) ==> i
                < layers@.len()),
        forall|k: int|
            0 <= k < records@.len() ==> !#[trigger] record_image_bad(
                records@[k],
                layers@,
                width as int,
                height as int,
            ),
        1 <= width <= 30000,
        height <= 30000,
    ensures
        final(output)@ == old(output)@ + pixels_of(records@, layers@, width as int, height as int),
{
    let mut k: usize = 0;
    while k < records.len()
        invariant
            k <= records@.len(),
            forall|j: int|
                0 <= j < records@.len() ==> (#[trigger] records@[j] matches PsdRecord::Source(i)
                    ==> i < layers@.len()),
            forall|j: int|
                0 <= j < records@.len() ==> !#[trigger] record_image_bad(
                    records@[j],
                    layers@,
                    width as int,
                    height as int,
                ),
            1 <= width <= 30000,
            height <= 30000,
            output@ == old(output)@ + pixels_of(
                records@.subrange(0, k as int),
                layers@,
                width as int,
                height as int,
            ),
        decreases records@.len() - k,
    {
        write_record_pixels(output, records[k], layers, width, height);
        proof {
            let pre = records@.subrange(0, k + 1);
            assert(pre.drop_last() =~= records@.subrange(0, k as int));
        }
        k = k + 1;
    }
    assert(records@.subrange(0, records@.len() as int) =~= records@);
}


proof fn lemma_extra_within_records(extras: Seq<int>, lengths: Seq<Seq<u32>>, k: int)
    requires
        extras.len() == lengths.len(),
        0 <= k < extras.len(),
        forall|i: int| 0 <= i < extras.len() ==> #[trigger] extras[i] >= 0,
    ensures
        extras[k] <= records_len(extras, lengths),
    decreases extras.len(),
{
    let n = extras.len() - 1;
    let e2 = extras.drop_last();
    let l2 = lengths.drop_last();
    assert forall|i: int| 0 <= i < e2.len() implies #[trigger] e2[i] >= 0 by {
        assert(e2[i] == extras[i]);
    }
    lemma_records_len_nonneg(e2, l2);
    if k < n {
        lemma_extra_within_records(e2, l2, k);
        assert(e2[k] == extras[k]);
    }
}

proof fn lemma_psd_records_indices(layers: Seq<Sai2Layer>)
    ensures
        psd_records(layers) matches Ok(records) ==> forall|k: int|
            0 <= k < records.len() ==> (#[trigger] records[k] matches PsdRecord::Source(i) ==> i
                < layers.len()),
{
    lemma_records_run(layers, layers.len());
}

/// The layer information size, its even rounding and the layer count, or
/// why the sizes cannot be written.
fn plan_sizes(
    extras: &[usize],
    lengths: &[Vec<u32>],
    Ghost(ex): Ghost<Seq<int>>,
    Ghost(ln): Ghost<Seq<Seq<u32>>>,
    solid: u32,
    records: usize,
    white_background: bool,
) -> (r: Result<(usize, usize, usize), String>)
    requires
        extras@.len() == lengths@.len() == ex.len() == ln.len(),
        forall|k: int| 0 <= k < ex.len() ==> #[trigger] ex[k] == extras@[k] as int,
        forall|k: int| 0 <= k < ln.len() ==> #[trigger] ln[k] == lengths@[k]@,
        forall|k: int| 0 <= k < ln.len() ==> #[trigger] ln[k].len() <= 4,
    ensures
        match sizes_error(sizes_from(ex, ln, solid as int, records as int, white_background)) {
            Some(message) => r matches Err(e) && e@ == message,
            None => r matches Ok((info, even, count)) && info == sizes_from(
                ex,
                ln,
                solid as int,
                records as int,
                white_background,
            ).info && even == even_info(
                sizes_from(ex, ln, solid as int, records as int, white_background),
            ) && count == sizes_from(ex, ln, solid as int, records as int, white_background).count,
        },
{
    let records_base = match sum_records_len(extras, lengths, Ghost(ex), Ghost(ln)) {
        Some(v) => v,
        None => {
            return Err("PSD layer records are too large".to_owned());
        },
    };
    let records_total = if white_background {
        match records_base.checked_add(150) {
            Some(v) => v,
            None => {
                return Err("PSD layer records are too large".to_owned());
            },
        }
    } else {
        records_base
    };
    let count = if white_background {
        match records.checked_add(1) {
            Some(v) => v,
            None => {
                return Err("PSD has too many layers".to_owned());
            },
        }
    } else {
        records
    };
    let image_base = match sum_image_len(lengths, Ghost(ln)) {
        Some(v) => v,
        None => {
            return Err("PSD layer image data is too large".to_owned());
        },
    };
    let image_total = if white_background {
        let once = match image_base.checked_add(solid as usize) {
            Some(v) => v,
            None => {
                return Err("PSD layer image data is too large".to_owned());
            },
        };
        let twice = match once.checked_add(solid as usize) {
            Some(v) => v,
            None => {
                return Err("PSD layer image data is too large".to_owned());
            },
        };
        let thrice = match twice.checked_add(solid as usize) {
            Some(v) => v,
            None => {
                return Err("PSD layer image data is too large".to_owned());
            },
        };
        match thrice.checked_add(solid as usize) {
            Some(v) => v,
            None => {
                return Err("PSD layer image data is too large".to_owned());
            },
        }
    } else {
        image_base
    };
    let info = match records_total.checked_add(2) {
        Some(v) => match v.checked_add(image_total) {
            Some(x) => x,
            None => {
                return Err("PSD layer information is too large".to_owned());
            },
        },
        None => {
            return Err("PSD layer information is too large".to_owned());
        },
    };
    let info_even = if info % 2 != 0 {
        match info.checked_add(1) {
            Some(v) => v,
            None => {
                return Err("PSD layer and mask section is too large".to_owned());
            },
        }
    } else {
        info
    };
    let section = match info_even.checked_add(8) {
        Some(v) => v,
        None => {
            return Err("PSD layer and mask section is too large".to_owned());
        },
    };
    if section as u64 > 0xffff_ffff {
        return Err("PSD section exceeds the 4 GiB format limit".to_owned());
    }
    if count > 32767 {
        return Err("PSD has too many layers".to_owned());
    }
    Ok((info, info_even, count))
}


/// Appends the whole PSD file once its sizes are known; fails on the first
/// source chunk that `source` does not hold, then on a merged image whose
/// pixel buffer does not fit the canvas.
#[verifier::spinoff_prover]
fn write_psd_body(
    psd: &mut Vec<u8>,
    records: &[PsdRecord],
    layers: &[Sai2Layer],
    extras: &[usize],
    lengths: &[Vec<u32>],
    width: u32,
    height: u32,
    composite: &RgbaImage,
    source: &[u8],
    solid: u32,
    info: usize,
    info_even: usize,
    count: usize,
    white_background: bool,
) -> (r: Result<(), String>)
    requires
        1 <= width <= 30000,
        1 <= height <= 30000,
        forall|k: int|
            0 <= k < records@.len() ==> (#[trigger] records@[k] matches PsdRecord::Source(i) ==> i
                < layers@.len()),
        forall|k: int|
            0 <= k < records@.len() ==> !#[trigger] record_image_bad(
                records@[k],
                layers@,
                width as int,
                height as int,
            ),
        extras@.len() == records@.len(),
        lengths@.len() == records@.len(),
        forall|k: int|
            0 <= k < records@.len() ==> record_extra(records@[k], layers@) == Ok::<int, Seq<char>>(
                #[trigger] extras@[k] as int,
            ),
        forall|k: int| 0 <= k < records@.len() ==> #[trigger] extras@[k] <= u32::MAX,
        forall|k: int|
            0 <= k < records@.len() ==> #[trigger] lengths@[k]@ == record_lengths(
                records@[k],
                layers@,
                width as int,
                height as int,
            ),
        solid == solid_len(width as int, height as int),
        info == psd_sizes(records@, layers@, width as int, height as int, white_background).info,
        info_even == even_info(psd_sizes(records@, layers@, width as int, height as int, white_background)),
        count == psd_sizes(records@, layers@, width as int, height as int, white_background).count,
        info_even + 8 <= u32::MAX,
        count <= 32767,
    ensures
        records_source_error(records@, layers@, source@.len() as int, 0) matches Some(message)
            ==> (r matches Err(e) && e@ == message),
        records_source_error(records@, layers@, source@.len() as int, 0) is None && !rgba_len_ok(
            composite.pixel_data().len() as int,
            width as int,
            height as int,
        ) ==> (r matches Err(e) && e@ == "RGBA pixel length does not match PSD dimensions"@),
        records_source_error(records@, layers@, source@.len() as int, 0) is None && rgba_len_ok(
            composite.pixel_data().len() as int,
            width as int,
            height as int,
        ) ==> (r is Ok && final(psd)@ == old(psd)@ + psd_header(
            width as int,
            height as int,
            info_even + 8,
            info_even as int,
            count as int,
        ) + (if white_background {
            background_record(width as int, height as int)
        } else {
            Seq::empty()
        }) + headers_of(
            records@,
            layers@,
            width as int,
            height as int,
            extras_of(records@, layers@),
            lengths_of(records@, layers@, width as int, height as int),
            source@,
        ) + (if white_background {
            background_pixels(width as int, height as int)
        } else {
            Seq::empty()
        }) + pixels_of(records@, layers@, width as int, height as int) + (if info % 2 == 1 {
            seq![0u8]
        } else {
            Seq::empty()
        }) + be32(0) + composite_plane(composite.pixel_data(), width as int, height as int)),
{
    let ghost w = width as int;
    let ghost h = height as int;
    write_psd_header(psd, width, height, (info_even + 8) as u32, info_even as u32, count as i16);
    let ghost after_header = psd@;
    if white_background {
        write_background_record(psd, width, height, solid);
    }
    let ghost after_background = psd@;
    match write_all_records(psd, records, layers, extras, lengths, width, height, source) {
        Ok(()) => {},
        Err(e) => {
            return Err(e);
        },
    }
    let ghost after_records = psd@;
    if white_background {
        write_rle_solid_plane(psd, 255, width, height);
        write_rle_solid_plane(psd, 255, width, height);
        write_rle_solid_plane(psd, 255, width, height);
        write_rle_solid_plane(psd, 255, width, height);
    }
    let ghost after_background_pixels = psd@;
    write_all_pixels(psd, records, layers, width, height);
    let ghost after_pixels = psd@;
    if info % 2 != 0 {
        psd.push(0);
    }
    let ghost after_pad = psd@;
    push_u32_be(psd, 0);
    match write_rle_composite(psd, composite.pixels(), width, height) {
        Ok(()) => {},
        Err(e) => {
            return Err(e);
        },
    }
    proof {
        let bg = if white_background {
            background_record(w, h)
        } else {
            Seq::empty()
        };
        let bgp = if white_background {
            background_pixels(w, h)
        } else {
            Seq::empty()
        };
        let pad = if info % 2 == 1 {
            seq![0u8]
        } else {
            Seq::<u8>::empty()
        };
        assert(after_background =~= after_header + bg);
        assert(after_background_pixels =~= after_records + bgp);
        assert(after_pad =~= after_pixels + pad);
    }
    Ok(())
}

/// Appends the PSD file header.
fn write_psd_header(psd: &mut Vec<u8>, width: u32, height: u32, section: u32, info: u32, count: i16)
    requires
        count >= 0,
    ensures
        final(psd)@ == old(psd)@ + psd_header(
            width as int,
            height as int,
            section as int,
            info as int,
            count as int,
        ),
{
    let signature: [u8; 4] = [56, 66, 80, 83];
    push_slice(psd, &signature);
    push_u16_be(psd, 1);
    let reserved: [u8; 6] = [0, 0, 0, 0, 0, 0];
    push_slice(psd, &reserved);
    push_u16_be(psd, 4);
    push_u32_be(psd, height);
    push_u32_be(psd, width);
    push_u16_be(psd, 8);
    push_u16_be(psd, 3);
    push_u32_be(psd, 0);
    push_u32_be(psd, 0);
    push_u32_be(psd, section);
    push_u32_be(psd, info);
    push_i16_be(psd, count);
    assert(signature@ =~= seq![56u8, 66u8, 80u8, 83u8]);
    assert(reserved@ =~= zeros(6));
    assert(final(psd)@ =~= old(psd)@ + psd_header(
        width as int,
        height as int,
        section as int,
        info as int,
        count as int,
    ));
}


/// Writes the layers (SAI2 order: top first) as a layered PSD (version 1)
/// file appended to `output`, with the merged image `composite`; `source`
/// is the SAI2 document, from which each layer's source chunks are copied
/// into a private `s2ly` block. With `white_background`, a white layer named
/// `SAI2 Canvas Background` stands below the others.
///
/// Nothing is written when the input is refused: a canvas outside
/// 1..=30000 pixels per side, a merged image or layer image of another
/// size, a raster layer without pixels, a shape layer, folders that do not
/// nest, sizes beyond the format's 4 GiB section limit or 32767 layers, a
/// source that lacks a preserved chunk, or a pixel buffer of the wrong
/// length. The checks are made in that order and the first failure is
/// reported.
#[verifier::spinoff_prover]
#[verifier::rlimit(60)]
pub fn write_layered(
    output: &mut Vec<u8>,
    width: u32,
    height: u32,
    layers: &[Sai2Layer],
    composite: &RgbaImage,
    source: &[u8],
    white_background: bool,
) -> (r: Result<(), String>)
    ensures
        match psd_error(width, height, layers@, *composite, source@, white_background) {
            Some(message) => r matches Err(e) && e@ == message && final(output)@ == old(output)@,
            None => r is Ok && final(output)@ == old(output)@ + psd_file(
                width,
                height,
                layers@,
                *composite,
                source@,
                white_background,
            ),
        },
{
    if width == 0 || height == 0 || width > 30000 || height > 30000 {
        let mut message = String::new();
        append_str(&mut message, "PSD 1.0 dimensions must be within 1..=30000, found ");
        append_decimal(&mut message, width as u64);
        append_str(&mut message, " x ");
        append_decimal(&mut message, height as u64);
        return Err(message);
    }
    if composite.width() != width || composite.height() != height {
        return Err("composite dimensions do not match the SAI2 canvas".to_owned());
    }
    match check_layers(layers, width, height) {
        Ok(()) => {},
        Err(e) => {
            return Err(e);
        },
    }
    let records = match build_psd_records(layers) {
        Ok(v) => v,
        Err(e) => {
            return Err(e);
        },
    };
    let ghost recs = records@;
    let ghost w = width as int;
    let ghost h = height as int;
    proof {
        lemma_psd_records_indices(layers@);
    }
    let lengths = match plan_channel_lengths(records.as_slice(), layers, width, height) {
        Ok(v) => v,
        Err(e) => {
            return Err(e);
        },
    };
    let solid = rle_solid_plane_len(width, height);
    let extras = match plan_extra_lens(records.as_slice(), layers) {
        Ok(v) => v,
        Err(e) => {
            return Err(e);
        },
    };
    let ghost ex = extras_of(recs, layers@);
    let ghost ln = lengths_of(recs, layers@, w, h);
    proof {
        assert forall|k: int| 0 <= k < ex.len() implies #[trigger] ex[k] == extras@[k] as int by {
            assert(record_extra(recs[k], layers@) == Ok::<int, Seq<char>>(extras@[k] as int));
        }
        assert forall|k: int| 0 <= k < ln.len() implies #[trigger] ln[k] == lengths@[k]@ by {
            assert(lengths@[k]@ == record_lengths(recs[k], layers@, w, h));
        }
        assert forall|k: int| 0 <= k < ln.len() implies #[trigger] ln[k].len() <= 4 by {
            assert(ln[k] == record_lengths(recs[k], layers@, w, h));
        }
    }
    let (info, info_even, count) = match plan_sizes(
        extras.as_slice(),
        lengths.as_slice(),
        Ghost(ex),
        Ghost(ln),
        solid,
        records.len(),
        white_background,
    ) {
        Ok(v) => v,
        Err(e) => {
            return Err(e);
        },
    };
    proof {
        assert forall|i: int| 0 <= i < ex.len() implies #[trigger] ex[i] >= 0 by {
            assert(ex[i] == extras@[i] as int);
        }
        let sz = sizes_from(ex, ln, solid as int, recs.len() as int, white_background);
        assert(sizes_error(sz) is None);
        lemma_image_len_nonneg(ln);
        lemma_records_len_nonneg(ex, ln);
        assert(records_len(ex, ln) <= even_info(sz) + 8);
        assert forall|k: int| 0 <= k < recs.len() implies #[trigger] extras@[k] <= u32::MAX by {
            lemma_extra_within_records(ex, ln, k);
            assert(ex[k] == extras@[k] as int);
        }
    }
    let mut psd: Vec<u8> = Vec::new();
    match write_psd_body(
        &mut psd,
        records.as_slice(),
        layers,
        extras.as_slice(),
        lengths.as_slice(),
        width,
        height,
        composite,
        source,
        solid,
        info,
        info_even,
        count,
        white_background,
    ) {
        Ok(()) => {},
        Err(e) => {
            proof {
                assert(!exists|k: int|
                    0 <= k < recs.len() && #[trigger] record_image_bad(recs[k], layers@, w, h));
                assert(extras_error(recs, layers@, 0) is None);
                assert(sizes_error(psd_sizes(recs, layers@, w, h, white_background)) is None);
                assert(psd_records(layers@) == Ok::<Seq<PsdRecord>, Seq<char>>(recs));
            }
            return Err(e);
        },
    }
    proof {
        assert(!exists|k: int|
            0 <= k < recs.len() && #[trigger] record_image_bad(recs[k], layers@, w, h));
        assert(extras_error(recs, layers@, 0) is None);
        assert(sizes_error(psd_sizes(recs, layers@, w, h, white_background)) is None);
        assert(psd_records(layers@) == Ok::<Seq<PsdRecord>, Seq<char>>(recs));
    }
    push_slice(output, psd.as_slice());
    Ok(())
}


// ---------------------------------------------------------------------------
// Announced sizes
// ---------------------------------------------------------------------------

proof fn lemma_pascal_name_len(name: Seq<u8>)
    ensures
        pascal_name(name).len() == pascal_name_len(name),
{
    reveal(pascal_name);
}

proof fn lemma_unicode_name_len(units: Seq<u16>)
    ensures
        unicode_name(units).len() == unicode_name_len(units),
{
    reveal(unicode_name);
    lemma_size_table_len(units);
}

proof fn lemma_section_divider_len(kind: int, blend: Option<Seq<u8>>)
    requires
        blend matches Some(key) ==> key.len() == 4,
    ensures
        section_divider(kind, blend).len() == section_divider_block_len(blend is Some),
{
    reveal(section_divider);
}

proof fn lemma_chunks_in_source(chunks: Seq<Chunk>, len: int, k: int, i: int)
    requires
        0 <= k <= i < chunks.len(),
        chunks_source_error(chunks, len, k) is None,
    ensures
        chunk_source_error(chunks[i], len) is None,
    decreases i - k,
{
    if k < i {
        lemma_chunks_in_source(chunks, len, k + 1, i);
    }
}

proof fn lemma_chunk_record_len(chunk: Chunk, source: Seq<u8>)
    requires
        chunk_source_error(chunk, source.len() as int) is None,
    ensures
        chunk_record(chunk, source).len() == 24 + chunk.size(),
{
}

proof fn lemma_chunk_records_len(chunks: Seq<Chunk>, source: Seq<u8>)
    requires
        forall|i: int|
            0 <= i < chunks.len() ==> #[trigger] chunk_source_error(chunks[i], source.len() as int)
                is None,
    ensures
        chunk_records(chunks, source).len() == sai2_payload_len(chunks) - 16,
    decreases chunks.len(),
{
    if chunks.len() > 0 {
        let init = chunks.drop_last();
        assert forall|i: int| 0 <= i < init.len() implies #[trigger] chunk_source_error(
            init[i],
            source.len() as int,
        ) is None by {
            assert(init[i] == chunks[i]);
        }
        lemma_chunk_records_len(init, source);
        lemma_chunk_record_len(chunks[chunks.len() - 1], source);
    }
}

proof fn lemma_sai2_layer_block_len(chunks: Seq<Chunk>, source: Seq<u8>)
    requires
        chunks_source_error(chunks, source.len() as int, 0) is None,
    ensures
        sai2_layer_block(chunks, source).len() == sai2_layer_block_len(chunks),
{
    reveal(sai2_layer_block);
    assert forall|i: int| 0 <= i < chunks.len() implies #[trigger] chunk_source_error(
        chunks[i],
        source.len() as int,
    ) is None by {
        lemma_chunks_in_source(chunks, source.len() as int, 0, i);
    }
    lemma_chunk_records_len(chunks, source);
    lemma_payload_at_least(chunks);
}

proof fn lemma_chunk_records_at(chunks: Seq<Chunk>, source: Seq<u8>, i: int)
    requires
        forall|j: int|
            0 <= j < chunks.len() ==> #[trigger] chunk_source_error(chunks[j], source.len() as int)
                is None,
        0 <= i < chunks.len(),
    ensures
        ({
            let at = sai2_payload_len(chunks.take(i)) - 16;
            &&& 0 <= at
            &&& at + 24 + chunks[i].size() <= chunk_records(chunks, source).len()
            &&& chunk_records(chunks, source).subrange(at, at + 24 + chunks[i].size()) == chunk_record(
                chunks[i],
                source,
            )
        }),
    decreases chunks.len(),
{
    let n = chunks.len() as int;
    let init = chunks.drop_last();
    assert forall|j: int| 0 <= j < init.len() implies #[trigger] chunk_source_error(
        init[j],
        source.len() as int,
    ) is None by {
        assert(init[j] == chunks[j]);
    }
    lemma_chunk_records_len(init, source);
    lemma_chunk_record_len(chunks[n - 1], source);
    let a = chunk_records(init, source);
    let b = chunk_record(chunks[n - 1], source);
    assert(chunk_records(chunks, source) == a + b);
    if i == n - 1 {
        assert(chunks.take(i) =~= init);
        lemma_payload_at_least(init);
        assert((a + b).subrange(a.len() as int, (a.len() + b.len()) as int) =~= b);
    } else {
        assert(init.take(i) =~= chunks.take(i));
        lemma_chunk_records_at(init, source, i);
        let at = sai2_payload_len(chunks.take(i)) - 16;
        assert((a + b).subrange(at, at + 24 + chunks[i].size()) =~= a.subrange(
            at,
            at + 24 + chunks[i].size(),
        ));
    }
}

proof fn lemma_chunk_record_fields(c: Chunk, source: Seq<u8>)
    requires
        chunk_source_error(c, source.len() as int) is None,
    ensures
        ({
            let rec = chunk_record(c, source);
            &&& rec.len() == 24 + c.size()
            &&& rec.subrange(0, 4) == c.kind().as_bytes()@
            &&& rec.subrange(4, 8) == be32(c.object_id() as int)
            &&& rec.subrange(8, 16) == be64(c.offset() as int)
            &&& rec.subrange(16, 24) == be64(c.size() as int)
            &&& rec.subrange(24, 24 + c.size()) == source.subrange(c.offset() as int, c.offset() + c.size())
        }),
{
    let rec = chunk_record(c, source);
    let kind = c.kind().as_bytes()@;
    let id = be32(c.object_id() as int);
    let off = be64(c.offset() as int);
    let size = be64(c.size() as int);
    let body = source.subrange(c.offset() as int, c.offset() + c.size());
    assert(rec == kind + id + off + size + body);
    assert(rec.subrange(0, 4) =~= kind);
    assert(rec.subrange(4, 8) =~= id);
    assert(rec.subrange(8, 16) =~= off);
    assert(rec.subrange(16, 24) =~= size);
    assert(rec.subrange(24, 24 + c.size()) =~= body);
}

proof fn lemma_middle_subrange(head: Seq<u8>, mid: Seq<u8>, tail: Seq<u8>, x: int, y: int)
    requires
        0 <= x <= y <= mid.len(),
    ensures
        (head + mid + tail).subrange(head.len() + x, head.len() + y) == mid.subrange(x, y),
{
    assert((head + mid + tail).subrange(head.len() + x, head.len() + y) =~= mid.subrange(x, y));
}

proof fn lemma_sai2_layer_block_parts(chunks: Seq<Chunk>, source: Seq<u8>)
    ensures
        ({
            let p = sai2_payload_len(chunks);
            let head = sig_8bim() + seq![115u8, 50u8, 108u8, 121u8] + be32(p) + seq![
                83u8,
                65u8,
                73u8,
                50u8,
                76u8,
                89u8,
                82u8,
                0u8,
            ] + be32(1) + be32(chunks.len() as int);
            &&& head.len() == 28
            &&& sai2_layer_block(chunks, source) == head + chunk_records(chunks, source) + zeros(
                round4(p) - p,
            )
        }),
{
    reveal(sai2_layer_block);
}

/// Every chunk that an `s2ly` block preserves can be read back from it: the
/// record of chunk `i` starts after the block's 28-byte head and the records
/// of the chunks before it, and holds the chunk's kind, object ID, source
/// offset and size, then exactly the chunk's bytes in the source.
pub proof fn lemma_preserved_chunk_readable(chunks: Seq<Chunk>, source: Seq<u8>, i: int)
    requires
        chunks_source_error(chunks, source.len() as int, 0) is None,
        0 <= i < chunks.len(),
    ensures
        ({
            let block = sai2_layer_block(chunks, source);
            let at = 12 + sai2_payload_len(chunks.take(i));
            let c = chunks[i];
            &&& at + 24 + c.size() <= block.len()
            &&& block.subrange(at, at + 4) == c.kind().as_bytes()@
            &&& block.subrange(at + 4, at + 8) == be32(c.object_id() as int)
            &&& block.subrange(at + 8, at + 16) == be64(c.offset() as int)
            &&& block.subrange(at + 16, at + 24) == be64(c.size() as int)
            &&& block.subrange(at + 24, at + 24 + c.size()) == source.subrange(
                c.offset() as int,
                c.offset() + c.size(),
            )
        }),
{
    assert forall|j: int| 0 <= j < chunks.len() implies #[trigger] chunk_source_error(
        chunks[j],
        source.len() as int,
    ) is None by {
        lemma_chunks_in_source(chunks, source.len() as int, 0, j);
    }
    lemma_chunk_records_at(chunks, source, i);
    lemma_sai2_layer_block_parts(chunks, source);
    let c = chunks[i];
    lemma_chunk_record_fields(c, source);
    let p = sai2_payload_len(chunks);
    let head = sig_8bim() + seq![115u8, 50u8, 108u8, 121u8] + be32(p) + seq![
        83u8,
        65u8,
        73u8,
        50u8,
        76u8,
        89u8,
        82u8,
        0u8,
    ] + be32(1) + be32(chunks.len() as int);
    let records = chunk_records(chunks, source);
    let pad = zeros(round4(p) - p);
    let rat = sai2_payload_len(chunks.take(i)) - 16;
    let rec = chunk_record(c, source);
    assert(records.subrange(rat, rat + 24 + c.size()) == rec);
    assert forall|x: int, y: int| 0 <= x <= y <= 24 + c.size() implies (head + records + pad).subrange(
        28 + rat + x,
        28 + rat + y,
    ) == #[trigger] rec.subrange(x, y) by {
        lemma_middle_subrange(head, records, pad, rat + x, rat + y);
        assert(records.subrange(rat + x, rat + y) =~= rec.subrange(x, y));
    }
    assert(rec.subrange(0, 4) == c.kind().as_bytes()@);
    assert(rec.subrange(4, 8) == be32(c.object_id() as int));
    assert(rec.subrange(8, 16) == be64(c.offset() as int));
    assert(rec.subrange(16, 24) == be64(c.size() as int));
    assert(rec.subrange(24, 24 + c.size()) == source.subrange(c.offset() as int, c.offset() + c.size()));
}

/// A source record's Photoshop blend key, then the opacity, scaled
/// from SAI2's 0..=100 to Photoshop's 0..=255 and rounded to the nearest
/// byte (halves up), so 0 gives 0, 50 gives 128 and 100 gives 255; the
/// clipping byte, 1 exactly when flag 0x0100_0000 is set; the flags byte,
/// bit 0 for alpha lock (flag 0x100) and bit 1 for a hidden layer (flag
/// 0x0001_0000 clear); and a zero filler.
#[verifier::spinoff_prover]
#[verifier::rlimit(30)]
pub proof fn lemma_record_flag_bytes(layer: Sai2Layer)
    requires
        layer.opacity() <= 100,
    ensures
        ({
            let r = record_flags(layer);
            let o = layer.opacity() as int;
            let f = layer.flags();
            &&& r.len() == 8
            &&& r.subrange(0, 4) == psd_blend_key(layer.blend_mode().as_bytes()@)
            &&& 255 * o - 50 < 100 * (r[4] as int) <= 255 * o + 50
            &&& r[5] == (if f & 0x0100_0000u32 != 0 {
                1u8
            } else {
                0u8
            })
            &&& r[6] == (if f & 0x100u32 != 0 {
                1u8
            } else {
                0u8
            }) + (if f & 0x0001_0000u32 != 0 {
                0u8
            } else {
                2u8
            })
            &&& r[7] == 0
        }),
{
    reveal(record_flags);
    reveal(psd_blend_key);
    lemma_layer_flag_bits(layer);
    let o = layer.opacity() as int;
    let q = psd_opacity(o);
    assert(0 <= q <= 255);
    assert(255 * o - 50 < 100 * q <= 255 * o + 50);
    assert(record_flags(layer).subrange(0, 4) =~= source_blend(layer));
}

/// Keys that name the same mode in SAI2 and Photoshop.
pub open spec fn shared_blend_keys() -> Set<Seq<u8>> {
    set![
        fourcc(112, 97, 115, 115),  // "pass"
        fourcc(110, 111, 114, 109),  // "norm"
        fourcc(115, 99, 114, 110),  // "scrn"
        fourcc(111, 118, 101, 114),  // "over"
        fourcc(100, 97, 114, 107),  // "dark"
        fourcc(108, 105, 116, 101),  // "lite"
        fourcc(100, 105, 102, 102),  // "diff"
        fourcc(102, 115, 117, 98),  // "fsub"
        fourcc(102, 100, 105, 118),  // "fdiv"
        fourcc(104, 117, 101, 32),  // "hue "
        fourcc(115, 97, 116, 32),  // "sat "
        fourcc(108, 117, 109, 32),  // "lum "
        fourcc(108, 100, 100, 103),  // "lddg"
        fourcc(108, 98, 114, 110)  // "lbrn"
    ]
}

/// A key that already names the same mode in Photoshop is kept as it is.
pub proof fn lemma_blend_key_keeps_shared_keys(mode: Seq<u8>)
    requires
        shared_blend_keys().contains(mode),
    ensures
        psd_blend_key(mode) == mode,
{
    reveal(psd_blend_key);
}

/// Compatibility keys map to the same Photoshop mode as the key of the
/// current SAI2 menu that they stand for.
pub proof fn lemma_blend_key_aliases()
    ensures
        psd_blend_key(fourcc(108, 105, 116, 101)) == psd_blend_key(fourcc(108, 105, 116, 110)),  // "lite", "litn"
        psd_blend_key(fourcc(115, 117, 98, 32)) == psd_blend_key(fourcc(102, 115, 117, 98)),  // "sub ", "fsub"
        psd_blend_key(fourcc(97, 100, 100, 32)) == psd_blend_key(fourcc(98, 117, 114, 110)),  // "add ", "burn"
        psd_blend_key(fourcc(108, 100, 100, 103)) == psd_blend_key(fourcc(98, 117, 114, 110)),  // "lddg", "burn"
        psd_blend_key(fourcc(108, 98, 114, 110)) == psd_blend_key(fourcc(115, 98, 97, 100)),  // "lbrn", "sbad"
        psd_blend_key(fourcc(108, 108, 105, 116)) == psd_blend_key(fourcc(100, 100, 103, 101)),  // "llit", "ddge"
        psd_blend_key(fourcc(99, 98, 114, 110)) == psd_blend_key(fourcc(98, 110, 100, 103)),  // "cbrn", "bndg"
        psd_blend_key(fourcc(99, 100, 100, 103)) == psd_blend_key(fourcc(105, 108, 105, 116)),  // "cddg", "ilit"
        psd_blend_key(fourcc(118, 108, 105, 116)) == psd_blend_key(fourcc(99, 100, 105, 102)),  // "vlit", "cdif"
{
    reveal(psd_blend_key);
}

/// Photoshop's blend-mode keys.
pub open spec fn photoshop_blend_keys() -> Set<Seq<u8>> {
    shared_blend_keys() + set![
        fourcc(109, 117, 108, 32),  // "mul "
        fourcc(108, 76, 105, 116),  // "lLit"
        fourcc(105, 100, 105, 118),  // "idiv"
        fourcc(100, 105, 118, 32),  // "div "
        fourcc(118, 76, 105, 116),  // "vLit"
        fourcc(115, 76, 105, 116),  // "sLit"
        fourcc(104, 76, 105, 116),  // "hLit"
        fourcc(112, 76, 105, 116),  // "pLit"
        fourcc(104, 77, 105, 120),  // "hMix"
        fourcc(100, 107, 67, 108),  // "dkCl"
        fourcc(108, 103, 67, 108),  // "lgCl"
        fourcc(115, 109, 117, 100),  // "smud"
        fourcc(99, 111, 108, 114)  // "colr"
    ]
}

/// The keys of SAI2's current layer-mode menu.
pub open spec fn sai2_menu_blend_keys() -> Set<Seq<u8>> {
    set![
        fourcc(112, 97, 115, 115),  // "pass"
        fourcc(110, 111, 114, 109),  // "norm"
        fourcc(109, 117, 108, 116),  // "mult"
        fourcc(115, 99, 114, 110),  // "scrn"
        fourcc(111, 118, 101, 114),  // "over"
        fourcc(115, 98, 97, 100),  // "sbad"
        fourcc(98, 117, 114, 110),  // "burn"
        fourcc(100, 100, 103, 101),  // "ddge"
        fourcc(98, 110, 100, 103),  // "bndg"
        fourcc(105, 108, 105, 116),  // "ilit"
        fourcc(99, 100, 105, 102),  // "cdif"
        fourcc(115, 108, 105, 116),  // "slit"
        fourcc(104, 108, 105, 116),  // "hlit"
        fourcc(112, 108, 105, 116),  // "plit"
        fourcc(104, 109, 105, 120),  // "hmix"
        fourcc(100, 97, 114, 107),  // "dark"
        fourcc(108, 105, 116, 110),  // "litn"
        fourcc(100, 114, 107, 99),  // "drkc"
        fourcc(108, 105, 116, 99),  // "litc"
        fourcc(100, 105, 102, 102),  // "diff"
        fourcc(101, 120, 99, 108),  // "excl"
        fourcc(102, 115, 117, 98),  // "fsub"
        fourcc(102, 100, 105, 118),  // "fdiv"
        fourcc(104, 117, 101, 32),  // "hue "
        fourcc(115, 97, 116, 32),  // "sat "
        fourcc(99, 111, 108, 32),  // "col "
        fourcc(108, 117, 109, 32)  // "lum "
    ]
}

/// The compatibility keys that SAI2 accepts besides its menu keys.
pub open spec fn sai2_compatibility_blend_keys() -> Set<Seq<u8>> {
    set![
        fourcc(108, 105, 116, 101),  // "lite"
        fourcc(115, 117, 98, 32),  // "sub "
        fourcc(97, 100, 100, 32),  // "add "
        fourcc(108, 100, 100, 103),  // "lddg"
        fourcc(108, 98, 114, 110),  // "lbrn"
        fourcc(108, 108, 105, 116),  // "llit"
        fourcc(99, 98, 114, 110),  // "cbrn"
        fourcc(99, 100, 100, 103),  // "cddg"
        fourcc(118, 108, 105, 116)  // "vlit"
    ]
}

/// Distinct modes of SAI2's menu stay distinct in Photoshop: no two menu
/// keys share a Photoshop key.
#[verifier::rlimit(60)]
pub proof fn lemma_blend_key_menu_distinct(a: Seq<u8>, b: Seq<u8>)
    requires
        sai2_menu_blend_keys().contains(a),
        sai2_menu_blend_keys().contains(b),
        a != b,
    ensures
        psd_blend_key(a) != psd_blend_key(b),
{
    reveal(psd_blend_key);
}

/// Keys that SAI2 does not accept become Normal.
pub proof fn lemma_blend_key_unknown_is_normal(mode: Seq<u8>)
    requires
        !sai2_menu_blend_keys().contains(mode),
        !sai2_compatibility_blend_keys().contains(mode),
    ensures
        psd_blend_key(mode) == fourcc(110, 111, 114, 109),
{
    reveal(psd_blend_key);
}

/// Whatever the SAI2 key, the result is a Photoshop blend-mode key.
pub proof fn lemma_blend_key_is_photoshop_key(mode: Seq<u8>)
    ensures
        photoshop_blend_keys().contains(psd_blend_key(mode)),
{
    reveal(psd_blend_key);
}

/// The extra-data size that a source layer's record announces is the size
/// of the extra data that follows the announcement.
pub proof fn lemma_source_extra_len(layer: Sai2Layer, extra: int, source: Seq<u8>)
    requires
        layer_extra(layer) == Ok::<int, Seq<char>>(extra),
        chunks_source_error(layer.source_list(), source.len() as int, 0) is None,
    ensures
        source_extra(layer, extra, source).len() == 4 + extra,
{
    lemma_pascal_name_len(fallback_name(layer.id() as nat));
    lemma_unicode_name_len(utf16_of(layer.name_view()));
    lemma_sai2_layer_block_len(layer.source_list(), source);
    lemma_section_divider_len(1, Some(source_blend(layer)));
    reveal(psd_blend_key);
}

proof fn lemma_channel_info_len(lengths: Seq<u32>)
    ensures
        channel_info(lengths).len() == 6 * lengths.len(),
    decreases lengths.len(),
{
    if lengths.len() > 0 {
        lemma_channel_info_len(lengths.drop_last());
    }
}

/// A record's header has the size that the layer-record total counts for
/// it.
pub proof fn lemma_record_header_len(
    record: PsdRecord,
    layers: Seq<Sai2Layer>,
    width: int,
    height: int,
    extra: int,
    lengths: Seq<u32>,
    source: Seq<u8>,
)
    requires
        record matches PsdRecord::Source(i) ==> 0 <= i < layers.len(),
        record_extra(record, layers) == Ok::<int, Seq<char>>(extra),
        record_source_error(record, layers, source.len() as int) is None,
    ensures
        record_header(record, layers, width, height, extra, lengths, source).len()
            == layer_record_len(extra, lengths.len() as int),
{
    reveal(record_header);
    lemma_channel_info_len(lengths);
    match record {
        PsdRecord::Source(i) => {
            reveal(record_flags);
            reveal(psd_blend_key);
            lemma_source_extra_len(layers[i as int], extra, source);
        },
        PsdRecord::Divider => {
            reveal(divider_body);
            lemma_pascal_name_len(divider_name());
            lemma_unicode_name_len(widen(divider_name()));
            lemma_section_divider_len(3, None);
        },
    }
}


/// An RLE plane of rows no wider than the PSD limit has the size that
/// `rle_len` gives, and that size fits 32 bits.
proof fn lemma_plane_fits(rows: Seq<Seq<u8>>, width: int)
    requires
        0 <= width <= 30000,
        rows.len() <= 30000,
        forall|i: int| 0 <= i < rows.len() ==> #[trigger] rows[i].len() == width,
    ensures
        rle_plane(rows).len() == rle_len(row_sizes(rows)),
        0 <= rle_len(row_sizes(rows)) <= u32::MAX,
{
    lemma_rows_fit(rows, width);
    lemma_rle_plane_len(rows);
    assert forall|i: int| 0 <= i < rows.len() implies #[trigger] row_sizes(rows)[i] <= 60000 by {
        lemma_packbits_round_trip(rows[i]);
    }
    lemma_size_sum_bound(row_sizes(rows), 60000);
    assert(60000 * row_sizes(rows).len() <= 60000 * 30000) by (nonlinear_arith)
        requires
            row_sizes(rows).len() <= 30000,
    ;
}

proof fn lemma_channel_plane(rgba: Seq<u8>, c: int, width: int, height: int)
    requires
        1 <= width <= 30000,
        1 <= height <= 30000,
    ensures
        rle_plane(channel_rows(rgba, c, width, height)).len() == plane_len(rgba, c, width, height),
{
    let rows = channel_rows(rgba, c, width, height);
    assert forall|i: int| 0 <= i < rows.len() implies #[trigger] rows[i].len() == width by {}
    lemma_plane_fits(rows, width);
}

proof fn lemma_solid_plane(value: u8, width: int, height: int)
    requires
        1 <= width <= 30000,
        1 <= height <= 30000,
    ensures
        rle_plane(solid_rows(value, width, height)).len() == rle_len(
            row_sizes(solid_rows(value, width, height)),
        ),
        rle_len(row_sizes(solid_rows(value, width, height))) <= u32::MAX,
        rle_len(row_sizes(solid_rows(value, width, height))) >= 0,
{
    let rows = solid_rows(value, width, height);
    assert forall|i: int| 0 <= i < rows.len() implies #[trigger] rows[i].len() == width by {}
    lemma_plane_fits(rows, width);
}

/// Planes of 255 have the sizes of planes of zero bytes.
proof fn lemma_white_sizes(width: int, height: int)
    requires
        1 <= width <= 30000,
        1 <= height <= 30000,
    ensures
        row_sizes(solid_rows(255, width, height)) == row_sizes(solid_rows(0, width, height)),
{
    let z = solid_rows(0, width, height);
    let f = solid_rows(255, width, height);
    assert forall|y: int| 0 <= y < height implies #[trigger] row_sizes(f)[y] == row_sizes(z)[y] by {
        assert(f[y] =~= inverted(z[y]));
        lemma_packbits_inverted_len(z[y]);
    }
    assert(row_sizes(f) =~= row_sizes(z));
}

/// A record's pixel data has the size of its announced channel sizes.
pub proof fn lemma_record_pixels_len(
    record: PsdRecord,
    layers: Seq<Sai2Layer>,
    width: int,
    height: int,
)
    requires
        record matches PsdRecord::Source(i) ==> 0 <= i < layers.len(),
        !record_image_bad(record, layers, width, height),
        1 <= width <= 30000,
        1 <= height <= 30000,
    ensures
        record_pixels(record, layers, width, height).len() == u32_sum(
            record_lengths(record, layers, width, height),
        ),
{
    reveal(record_pixels);
    reveal_with_fuel(u32_sum, 5);
    match record {
        PsdRecord::Divider => {},
        PsdRecord::Source(i) => {
            if !layers[i as int].is_folder() {
                match layers[i as int].image_view() {
                    Some(img) => {
                        let px = img.pixel_data();
                        lemma_channel_plane(px, 0, width, height);
                        lemma_channel_plane(px, 1, width, height);
                        lemma_channel_plane(px, 2, width, height);
                        lemma_channel_plane(px, 3, width, height);
                        let l = record_lengths(record, layers, width, height);
                        assert(l.drop_last().drop_last().drop_last().drop_last() =~= Seq::<
                            u32,
                        >::empty());
                    },
                    None => {
                        lemma_solid_plane(0, width, height);
                        let l = record_lengths(record, layers, width, height);
                        assert(l.drop_last().drop_last().drop_last().drop_last() =~= Seq::<
                            u32,
                        >::empty());
                    },
                }
            }
        },
    }
}


proof fn lemma_headers_len(
    records: Seq<PsdRecord>,
    layers: Seq<Sai2Layer>,
    width: int,
    height: int,
    source: Seq<u8>,
    k: int,
)
    requires
        0 <= k <= records.len(),
        forall|j: int|
            0 <= j < records.len() ==> (#[trigger] records[j] matches PsdRecord::Source(i) ==> 0
                <= i < layers.len()),
        extras_error(records, layers, 0) is None,
        records_source_error(records, layers, source.len() as int, 0) is None,
    ensures
        headers_of(
            records.subrange(0, k),
            layers,
            width,
            height,
            extras_of(records, layers),
            lengths_of(records, layers, width, height),
            source,
        ).len() == records_len(
            extras_of(records, layers).subrange(0, k),
            lengths_of(records, layers, width, height).subrange(0, k),
        ),
    decreases k,
{
    let ex = extras_of(records, layers);
    let ln = lengths_of(records, layers, width, height);
    if k > 0 {
        lemma_headers_len(records, layers, width, height, source, k - 1);
        assert(records.subrange(0, k).drop_last() =~= records.subrange(0, k - 1));
        assert(ex.subrange(0, k).drop_last() =~= ex.subrange(0, k - 1));
        assert(ln.subrange(0, k).drop_last() =~= ln.subrange(0, k - 1));
        lemma_extras_ok(records, layers, 0, k - 1);
        lemma_record_sources_ok(records, layers, source.len() as int, 0, k - 1);
        lemma_record_header_len(
            records[k - 1],
            layers,
            width,
            height,
            ex[k - 1],
            ln[k - 1],
            source,
        );
    } else {
        assert(records.subrange(0, 0).len() == 0);
        assert(ex.subrange(0, 0).len() == 0);
    }
}

proof fn lemma_extras_ok(records: Seq<PsdRecord>, layers: Seq<Sai2Layer>, k: int, i: int)
    requires
        0 <= k <= i < records.len(),
        extras_error(records, layers, k) is None,
    ensures
        record_extra(records[i], layers) is Ok,
    decreases i - k,
{
    if k < i {
        lemma_extras_ok(records, layers, k + 1, i);
    }
}

proof fn lemma_record_sources_ok(records: Seq<PsdRecord>, layers: Seq<Sai2Layer>, len: int, k: int, i: int)
    requires
        0 <= k <= i < records.len(),
        records_source_error(records, layers, len, k) is None,
    ensures
        record_source_error(records[i], layers, len) is None,
    decreases i - k,
{
    if k < i {
        lemma_record_sources_ok(records, layers, len, k + 1, i);
    }
}

proof fn lemma_pixels_len(
    records: Seq<PsdRecord>,
    layers: Seq<Sai2Layer>,
    width: int,
    height: int,
    k: int,
)
    requires
        0 <= k <= records.len(),
        forall|j: int|
            0 <= j < records.len() ==> (#[trigger] records[j] matches PsdRecord::Source(i) ==> 0
                <= i < layers.len()),
        forall|j: int|
            0 <= j < records.len() ==> !#[trigger] record_image_bad(records[j], layers, width, height),
        1 <= width <= 30000,
        1 <= height <= 30000,
    ensures
        pixels_of(records.subrange(0, k), layers, width, height).len() == image_data_len(
            lengths_of(records, layers, width, height).subrange(0, k),
        ),
    decreases k,
{
    let ln = lengths_of(records, layers, width, height);
    if k > 0 {
        lemma_pixels_len(records, layers, width, height, k - 1);
        assert(records.subrange(0, k).drop_last() =~= records.subrange(0, k - 1));
        assert(ln.subrange(0, k).drop_last() =~= ln.subrange(0, k - 1));
        assert(records[k - 1] matches PsdRecord::Source(i) ==> 0 <= i < layers.len());
        assert(!record_image_bad(records[k - 1], layers, width, height));
        lemma_record_pixels_len(records[k - 1], layers, width, height);
    } else {
        assert(records.subrange(0, 0).len() == 0);
        assert(ln.subrange(0, 0).len() == 0);
    }
}

proof fn lemma_background_len(width: int, height: int)
    requires
        1 <= width <= 30000,
        1 <= height <= 30000,
    ensures
        background_record(width, height).len() == layer_record_len(92, 4),
        background_pixels(width, height).len() == 4 * solid_len(width, height),
{
    reveal(background_record);
    let s = solid_len(width, height);
    lemma_channel_info_len(seq![s, s, s, s]);
    lemma_pascal_name_len(background_name());
    lemma_unicode_name_len(widen(background_name()));
    lemma_solid_plane(255, width, height);
    lemma_solid_plane(0, width, height);
    lemma_white_sizes(width, height);
}

/// The sizes that a written PSD file announces are the sizes of what
/// follows them: the layer information section (layer count, records,
/// channel data and padding) holds `even_info` bytes, the layer-and-mask
/// section that and the two length fields, and the merged image follows.
#[verifier::spinoff_prover]
#[verifier::rlimit(60)]
pub proof fn lemma_psd_sizes_announced(
    width: u32,
    height: u32,
    layers: Seq<Sai2Layer>,
    composite: RgbaImage,
    source: Seq<u8>,
    white_background: bool,
)
    requires
        psd_error(width, height, layers, composite, source, white_background) is None,
    ensures
        psd_records(layers) matches Ok(records) && psd_file(
            width,
            height,
            layers,
            composite,
            source,
            white_background,
        ).len() == 42 + even_info(
            psd_sizes(records, layers, width as int, height as int, white_background),
        ) + 4 + composite_plane(composite.pixel_data(), width as int, height as int).len(),
{
    let w = width as int;
    let h = height as int;
    lemma_psd_records_indices(layers);
    let records = psd_records(layers)->Ok_0;
    let ex = extras_of(records, layers);
    let ln = lengths_of(records, layers, w, h);
    assert(!exists|k: int| 0 <= k < records.len() && #[trigger] record_image_bad(records[k], layers, w, h));
    lemma_headers_len(records, layers, w, h, source, records.len() as int);
    lemma_pixels_len(records, layers, w, h, records.len() as int);
    assert(records.subrange(0, records.len() as int) =~= records);
    assert(ex.subrange(0, ex.len() as int) =~= ex);
    assert(ln.subrange(0, ln.len() as int) =~= ln);
    lemma_background_len(w, h);
    let sizes = psd_sizes(records, layers, w, h, white_background);
    let head = psd_header(w, h, even_info(sizes) + 8, even_info(sizes), sizes.count);
    assert(head.len() == 44);
    let headers = headers_of(records, layers, w, h, ex, ln, source);
    let pixels = pixels_of(records, layers, w, h);
    assert(headers.len() == records_len(ex, ln));
    assert(pixels.len() == image_data_len(ln));
}


/// Number of layers that are neither folders nor decoded images: their PSD
/// layers are transparent placeholders.
pub open spec fn placeholders(layers: Seq<Sai2Layer>) -> nat
    decreases layers.len(),
{
    if layers.len() == 0 {
        0
    } else {
        placeholders(layers.drop_last()) + if !layers.last().is_folder()
            && layers.last().image_view() is None {
            1nat
        } else {
            0nat
        }
    }
}

proof fn lemma_placeholders_bound(layers: Seq<Sai2Layer>)
    ensures
        placeholders(layers) <= layers.len(),
    decreases layers.len(),
{
    if layers.len() > 0 {
        lemma_placeholders_bound(layers.drop_last());
    }
}

/// Counts the layers that become transparent placeholders in a PSD file.
pub fn placeholder_count(layers: &[Sai2Layer]) -> (r: usize)
    ensures
        r == placeholders(layers@),
{
    let mut count: usize = 0;
    let mut i: usize = 0;
    while i < layers.len()
        invariant
            i <= layers@.len(),
            count == placeholders(layers@.subrange(0, i as int)),
        decreases layers@.len() - i,
    {
        proof {
            assert(layers@.subrange(0, i + 1).drop_last() =~= layers@.subrange(0, i as int));
            lemma_placeholders_bound(layers@.subrange(0, i as int));
        }
        if !layers[i].is_folder() && layers[i].image().is_none() {
            count = count + 1;
        }
        i = i + 1;
    }
    assert(layers@.subrange(0, layers@.len() as int) =~= layers@);
    count
}
proof fn lemma_flat_records_run(layers: Seq<Sai2Layer>, k: nat)
    requires
        k <= layers.len(),
        forall|i: int|
            0 <= i < layers.len() ==> #[trigger] layers[i].nesting_level() == 0
                && !layers[i].is_folder(),
    ensures
        records_run(layers, k) == Ok::<(Seq<PsdRecord>, int), Seq<char>>(
            (Seq::new(k, |j: int| PsdRecord::Source((layers.len() - 1 - j) as usize)), 0),
        ),
    decreases k,
{
    if k > 0 {
        lemma_flat_records_run(layers, (k - 1) as nat);
        let index = layers.len() - k;
        assert(layers[index].nesting_level() == 0 && !layers[index].is_folder());
        assert(Seq::new((k - 1) as nat, |j: int| PsdRecord::Source((layers.len() - 1 - j) as usize)).push(
            PsdRecord::Source(index as usize),
        ) =~= Seq::new(k, |j: int| PsdRecord::Source((layers.len() - 1 - j) as usize)));
    } else {
        assert(Seq::new(k, |j: int| PsdRecord::Source((layers.len() - 1 - j) as usize)) =~= Seq::<
            PsdRecord,
        >::empty());
    }
}

/// Without folders, the PSD records are the SAI2 layers in reverse order:
/// SAI2 lists layers from the top, PSD composites them from the bottom.
pub proof fn lemma_flat_layers_reversed(layers: Seq<Sai2Layer>)
    requires
        forall|i: int|
            0 <= i < layers.len() ==> #[trigger] layers[i].nesting_level() == 0
                && !layers[i].is_folder(),
    ensures
        psd_records(layers) == Ok::<Seq<PsdRecord>, Seq<char>>(
            Seq::new(layers.len(), |j: int| PsdRecord::Source((layers.len() - 1 - j) as usize)),
        ),
{
    lemma_flat_records_run(layers, layers.len());
}


} // verus!
