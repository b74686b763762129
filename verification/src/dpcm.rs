//! The LSB-first delta/RLE bitstream shared by the integrated image and the
//! raster-layer blocks.

use vstd::prelude::*;

use crate::error::ParseError;

verus! {

/// `2` raised to `n`.
pub open spec fn pow2(n: nat) -> nat
    decreases n,
{
    if n == 0 {
        1
    } else {
        2 * pow2((n - 1) as nat)
    }
}

/// Bit number `pos` of `s`, counting from the least significant bit of the
/// first byte.
pub open spec fn bit_at(s: Seq<u8>, pos: int) -> u8 {
    (s[pos / 8] >> ((pos % 8) as u8)) & 1u8
}

/// The `count` bits of `s` starting at bit `pos`, read least significant
/// bit first.
pub open spec fn bits_value(s: Seq<u8>, pos: int, count: nat) -> nat
    decreases count,
{
    if count == 0 {
        0
    } else {
        bits_value(s, pos, (count - 1) as nat) + bit_at(s, pos + count - 1) as nat * pow2(
            (count - 1) as nat,
        )
    }
}

pub proof fn lemma_bit_at_is_bit(s: Seq<u8>, pos: int)
    ensures
        bit_at(s, pos) == 0 || bit_at(s, pos) == 1,
{
    let b = s[pos / 8];
    let k = (pos % 8) as u8;
    assert((b >> k) & 1u8 == 0 || (b >> k) & 1u8 == 1) by (bit_vector);
}

pub proof fn lemma_bits_value_bound(s: Seq<u8>, pos: int, count: nat)
    ensures
        bits_value(s, pos, count) < pow2(count),
    decreases count,
{
    if count > 0 {
        lemma_bits_value_bound(s, pos, (count - 1) as nat);
        lemma_bit_at_is_bit(s, pos + count - 1);
    }
}

pub open spec fn truncated_msg() -> &'static str {
    "truncated RLE bitstream"
}

/// Reads a byte slice one bit at a time, least significant bit first.
pub struct LsbBits<'a> {
    input: &'a [u8],
    byte: usize,
    bit: u8,
}

impl<'a> LsbBits<'a> {
    pub closed spec fn data(&self) -> Seq<u8> {
        self.input@
    }

    /// The number of bits read so far.
    pub closed spec fn pos(&self) -> int {
        8 * self.byte + self.bit
    }

    pub closed spec fn wf(&self) -> bool {
        &&& self.bit < 8
        &&& self.input@.len() <= usize::MAX
        &&& self.byte <= self.input@.len()
        &&& self.byte == self.input@.len() ==> self.bit == 0
    }

    pub fn new(input: &'a [u8]) -> (r: Self)
        ensures
            r.wf(),
            r.data() == input@,
            r.pos() == 0,
    {
        let _ = input.len();
        LsbBits { input, byte: 0, bit: 0 }
    }

    pub proof fn lemma_pos_bound(&self)
        requires
            self.wf(),
        ensures
            0 <= self.pos() <= 8 * self.data().len(),
    {
    }

    pub fn read_bit(&mut self) -> (r: Result<u8, ParseError>)
        requires
            old(self).wf(),
        ensures
            final(self).wf(),
            final(self).data() == old(self).data(),
            (old(self).pos() < 8 * old(self).data().len()) <==> r is Ok,
            r matches Ok(b) ==> b == bit_at(old(self).data(), old(self).pos()) && final(self).pos()
                == old(self).pos() + 1,
            r matches Err(e) ==> e == (ParseError::MalformedDpcm { reason: truncated_msg() })
                && final(self).pos() == old(self).pos(),
    {
        if self.byte >= self.input.len() {
            return Err(ParseError::MalformedDpcm { reason: "truncated RLE bitstream" });
        }
        let byte = self.input[self.byte];
        let bit = (byte >> self.bit) & 1;
        assert(self.pos() / 8 == self.byte && self.pos() % 8 == self.bit);
        if self.bit == 7 {
            self.bit = 0;
            self.byte = self.byte + 1;
        } else {
            self.bit = self.bit + 1;
        }
        Ok(bit)
    }

    pub fn read_bits(&mut self, count: usize) -> (r: Result<u32, ParseError>)
        requires
            old(self).wf(),
            count <= 16,
        ensures
            final(self).wf(),
            final(self).data() == old(self).data(),
            (old(self).pos() + count <= 8 * old(self).data().len()) <==> r is Ok,
            r matches Ok(v) ==> v == bits_value(old(self).data(), old(self).pos(), count as nat)
                && final(self).pos() == old(self).pos() + count,
            r matches Err(e) ==> e == (ParseError::MalformedDpcm { reason: truncated_msg() }),
    {
        let ghost s = self.data();
        let ghost start = self.pos();
        let mut value: u32 = 0;
        let mut weight: u32 = 1;
        let mut shift: usize = 0;
        while shift < count
            invariant
                self.wf(),
                self.data() == s,
                s == old(self).data(),
                start == old(self).pos(),
                shift <= count <= 16,
                self.pos() == start + shift,
                start + shift <= 8 * s.len(),
                value == bits_value(s, start, shift as nat),
                weight == pow2(shift as nat),
                value < weight,
                weight <= 65536,
            decreases count - shift,
        {
            let b = match self.read_bit() {
                Ok(b) => b,
                Err(e) => {
                    return Err(e);
                },
            };
            proof {
                lemma_bit_at_is_bit(s, start + shift);
                lemma_pow2_monotone(shift as nat, 15);
                reveal_with_fuel(pow2, 16);
                assert(pow2((shift + 1) as nat) == 2 * pow2(shift as nat));
                assert(bits_value(s, start, (shift + 1) as nat) == bits_value(s, start, shift as nat)
                    + bit_at(s, start + shift) as nat * pow2(shift as nat));
            }
            if b == 1 {
                value = value + weight;
            }
            weight = weight * 2;
            shift = shift + 1;
        }
        Ok(value)
    }

    /// The number of bytes touched so far: the bit count rounded up.
    pub fn bytes_consumed(&self) -> (r: usize)
        requires
            self.wf(),
        ensures
            r == (self.pos() + 7) / 8,
    {
        if self.bit > 0 {
            self.byte + 1
        } else {
            self.byte
        }
    }
}


/// One symbol of the delta/RLE stream.
#[derive(Clone, Copy, Debug, PartialEq, Eq)]
pub enum RowSymbol {
    /// A zero delta for one pixel.
    Zero,
    /// A nonzero signed delta for one pixel.
    Delta(i16),
    /// A run of this many pixels whose deltas are left untouched.
    Run(u8),
}

/// Reads the unary opcode prefix at bit `pos`, `zeros` zero bits having been
/// read already: the number of zero bits before the terminating one bit and
/// the position after it.
pub open spec fn opcode_prefix(s: Seq<u8>, pos: int, zeros: int) -> Result<(int, int), &'static str>
    decreases 8 - zeros,
{
    if pos >= 8 * s.len() || pos < 0 || zeros < 0 {
        Err(truncated_msg())
    } else if bit_at(s, pos) == 1 {
        Ok((zeros, pos + 1))
    } else if zeros + 1 > 7 {
        Err("RLE opcode exceeds 15")
    } else {
        opcode_prefix(s, pos + 1, zeros + 1)
    }
}

/// Decodes the symbol at bit `pos` of `s`: a unary prefix of `z` zero bits
/// and one further bit give the opcode `2 * z + bit`. Opcode 0 is a zero
/// delta; opcodes 1 to 14 are followed by `opcode` low bits and a sign bit
/// of a delta of magnitude `2^opcode + low - 1`; opcode 15 is followed by
/// seven bits `n` of a run of `n + 8` pixels.
pub open spec fn decode_symbol(s: Seq<u8>, pos: int) -> Result<(RowSymbol, int), &'static str> {
    match opcode_prefix(s, pos, 0) {
        Err(e) => Err(e),
        Ok((z, p)) => if p >= 8 * s.len() {
            Err(truncated_msg())
        } else {
            let op = 2 * z + bit_at(s, p);
            let p = p + 1;
            if op == 0 {
                Ok((RowSymbol::Zero, p))
            } else if op <= 14 {
                if p + op + 1 > 8 * s.len() {
                    Err(truncated_msg())
                } else {
                    let mag = pow2(op as nat) + bits_value(s, p, op as nat) - 1;
                    let d = if bit_at(s, p + op) == 1 {
                        -mag
                    } else {
                        mag
                    };
                    Ok((RowSymbol::Delta(d as i16), p + op + 1))
                }
            } else if p + 7 > 8 * s.len() {
                Err(truncated_msg())
            } else {
                Ok((RowSymbol::Run((bits_value(s, p, 7) + 8) as u8), p + 7))
            }
        },
    }
}

/// Decodes pixels `written..pixel_count` of `channel` and then the
/// remaining channels, starting at bit `pos`, into `deltas`, where pixel `x`
/// of channel `c` is stored at `x * out_ch + c`. The result is the bit
/// position after the row and the updated deltas, or the error message with
/// the deltas as far as they were written.
pub open spec fn delta_row_run(
    s: Seq<u8>,
    pos: int,
    channel: int,
    written: int,
    deltas: Seq<i16>,
    pixel_count: int,
    in_ch: int,
    out_ch: int,
) -> Result<(int, Seq<i16>), (&'static str, Seq<i16>)>
    decreases in_ch - channel, pixel_count - written,
{
    if channel >= in_ch {
        Ok((pos, deltas))
    } else if written >= pixel_count {
        delta_row_run(s, pos, channel + 1, 0, deltas, pixel_count, in_ch, out_ch)
    } else {
        match decode_symbol(s, pos) {
            Err(e) => Err((e, deltas)),
            Ok((RowSymbol::Zero, p)) => delta_row_run(
                s,
                p,
                channel,
                written + 1,
                deltas.update(written * out_ch + channel, 0),
                pixel_count,
                in_ch,
                out_ch,
            ),
            Ok((RowSymbol::Delta(d), p)) => delta_row_run(
                s,
                p,
                channel,
                written + 1,
                deltas.update(written * out_ch + channel, d),
                pixel_count,
                in_ch,
                out_ch,
            ),
            Ok((RowSymbol::Run(n), p)) => if n > pixel_count - written {
                Err(("zero run exceeds row width", deltas))
            } else {
                proof {
                    lemma_run_is_long(s, pos);
                }
                delta_row_run(s, p, channel, written + n, deltas, pixel_count, in_ch, out_ch)
            },
        }
    }
}

/// The outcome of decoding one row of `pixel_count` pixels with `in_ch`
/// coded channels into a buffer of `out_ch` channels per pixel: the number of
/// bytes of `s` consumed and the new buffer, or an error message and the
/// buffer as far as it was written.
pub open spec fn delta_row_outcome(
    s: Seq<u8>,
    deltas: Seq<i16>,
    pixel_count: int,
    in_ch: int,
    out_ch: int,
) -> Result<(int, Seq<i16>), (&'static str, Seq<i16>)> {
    if pixel_count * out_ch > usize::MAX {
        Err(("row size overflow", deltas))
    } else if deltas.len() != pixel_count * out_ch || !(1 <= in_ch <= 4) || !(in_ch <= out_ch <= 4) {
        Err(("invalid row buffer or channel count", deltas))
    } else {
        match delta_row_run(s, 0, 0, 0, deltas, pixel_count, in_ch, out_ch) {
            Ok((pos, d)) => Ok(((pos + 7) / 8, d)),
            Err(x) => Err(x),
        }
    }
}

/// A decoded run covers at least eight pixels.
pub proof fn lemma_run_is_long(s: Seq<u8>, pos: int)
    ensures
        decode_symbol(s, pos) matches Ok((RowSymbol::Run(n), _)) ==> n >= 8,
{
    if let Ok((z, p)) = opcode_prefix(s, pos, 0) {
        lemma_bits_value_bound(s, p + 1, 7);
        reveal_with_fuel(pow2, 8);
    }
}

fn pow2_u32(n: usize) -> (r: u32)
    requires
        n <= 16,
    ensures
        r == pow2(n as nat),
{
    let mut r: u32 = 1;
    let mut i: usize = 0;
    while i < n
        invariant
            i <= n <= 16,
            r == pow2(i as nat),
            r <= 65536,
        decreases n - i,
    {
        r = r * 2;
        i = i + 1;
        proof {
            reveal_with_fuel(pow2, 2);
            assert(pow2(i as nat) == 2 * pow2((i - 1) as nat));
            lemma_pow2_le_16(i as nat);
        }
    }
    r
}

proof fn lemma_pow2_le_16(n: nat)
    requires
        n <= 16,
    ensures
        pow2(n) <= 65536,
        pow2(n) >= 1,
    decreases n,
{
    if n > 0 {
        lemma_pow2_le_16((n - 1) as nat);
        if n == 16 {
            reveal_with_fuel(pow2, 17);
        } else {
            lemma_pow2_monotone((n - 1) as nat, 15);
            reveal_with_fuel(pow2, 16);
        }
    }
}

proof fn lemma_pow2_monotone(a: nat, b: nat)
    requires
        a <= b,
    ensures
        pow2(a) <= pow2(b),
    decreases b,
{
    if a < b {
        lemma_pow2_monotone(a, (b - 1) as nat);
    }
}

/// Reads one symbol of the delta/RLE stream.
pub fn read_symbol(bits: &mut LsbBits) -> (r: Result<RowSymbol, ParseError>)
    requires
        old(bits).wf(),
    ensures
        final(bits).wf(),
        final(bits).data() == old(bits).data(),
        match decode_symbol(old(bits).data(), old(bits).pos()) {
            Ok((sym, p)) => r == Ok::<RowSymbol, ParseError>(sym) && final(bits).pos() == p,
            Err(e) => r == Err::<RowSymbol, ParseError>(ParseError::MalformedDpcm { reason: e }),
        },
{
    let ghost s = bits.data();
    let ghost start = bits.pos();
    proof {
        bits.lemma_pos_bound();
    }
    let mut zero_prefix: u8 = 0;
    loop
        invariant_except_break
            opcode_prefix(s, start, 0) == opcode_prefix(s, bits.pos(), zero_prefix as int),
        invariant
            bits.wf(),
            bits.data() == s,
            s == old(bits).data(),
            start == old(bits).pos(),
            zero_prefix <= 7,
            0 <= start,
        ensures
            bits.wf(),
            bits.data() == s,
            zero_prefix <= 7,
            opcode_prefix(s, start, 0) == Ok::<(int, int), &'static str>((zero_prefix as int, bits.pos())),
        decreases 8 - zero_prefix,
    {
        proof {
            bits.lemma_pos_bound();
        }
        let ghost before = bits.pos();
        let b = match bits.read_bit() {
            Ok(b) => b,
            Err(e) => {
                return Err(e);
            },
        };
        proof {
            lemma_bit_at_is_bit(s, before);
        }
        if b != 0 {
            break;
        }
        zero_prefix = zero_prefix + 1;
        if zero_prefix > 7 {
            return Err(ParseError::MalformedDpcm { reason: "RLE opcode exceeds 15" });
        }
    }
    proof {
        bits.lemma_pos_bound();
    }
    let ghost p0 = bits.pos();
    let last = match bits.read_bit() {
        Ok(b) => b,
        Err(e) => {
            return Err(e);
        },
    };
    proof {
        lemma_bit_at_is_bit(s, p0);
    }
    let opcode = zero_prefix as usize * 2 + last as usize;
    assert(opcode_prefix(s, start, 0) == Ok::<(int, int), &'static str>((zero_prefix as int, p0)));
    assert(opcode == 2 * zero_prefix + bit_at(s, p0));
    if opcode == 0 {
        assert(decode_symbol(s, start) == Ok::<(RowSymbol, int), &'static str>((RowSymbol::Zero, p0 + 1)));
        Ok(RowSymbol::Zero)
    } else if opcode <= 14 {
        let low = match bits.read_bits(opcode) {
            Ok(v) => v,
            Err(e) => {
                return Err(e);
            },
        };
        let sign = match bits.read_bit() {
            Ok(b) => b,
            Err(e) => {
                return Err(e);
            },
        };
        proof {
            lemma_bits_value_bound(s, p0 + 1, opcode as nat);
            lemma_pow2_le_16(opcode as nat);
            lemma_pow2_monotone(opcode as nat, 14);
            reveal_with_fuel(pow2, 15);
        }
        let magnitude = pow2_u32(opcode) + low - 1;
        let magnitude = magnitude as i16;
        proof {
            lemma_bit_at_is_bit(s, p0 + 1 + opcode);
        }
        if sign != 0 {
            Ok(RowSymbol::Delta(-magnitude))
        } else {
            Ok(RowSymbol::Delta(magnitude))
        }
    } else {
        let run = match bits.read_bits(7) {
            Ok(v) => v,
            Err(e) => {
                return Err(e);
            },
        };
        proof {
            lemma_bits_value_bound(s, p0 + 1, 7);
            reveal_with_fuel(pow2, 8);
        }
        Ok(RowSymbol::Run((run + 8) as u8))
    }
}

proof fn lemma_index_in_row(written: int, channel: int, pixel_count: int, out_ch: int)
    requires
        0 <= written < pixel_count,
        0 <= channel < out_ch,
    ensures
        0 <= written * out_ch + channel < pixel_count * out_ch,
{
    assert(written * out_ch + channel < pixel_count * out_ch) by (nonlinear_arith)
        requires
            0 <= written < pixel_count,
            0 <= channel < out_ch,
    ;
    assert(0 <= written * out_ch) by (nonlinear_arith)
        requires
            0 <= written,
            0 <= out_ch,
    ;
}

/// Decodes one row of `pixel_count` pixels with `input_channels` coded
/// channels into `deltas`, which holds `output_channels` values per pixel,
/// and returns the number of bytes of `compressed` consumed.
pub fn decode_delta_row(
    compressed: &[u8],
    deltas: &mut Vec<i16>,
    pixel_count: usize,
    input_channels: usize,
    output_channels: usize,
) -> (r: Result<usize, ParseError>)
    ensures
        match delta_row_outcome(
            compressed@,
            old(deltas)@,
            pixel_count as int,
            input_channels as int,
            output_channels as int,
        ) {
            Ok((n, d)) => r == Ok::<usize, ParseError>(n as usize) && 0 <= n <= compressed@.len()
                && final(deltas)@ == d,
            Err((e, d)) => r == Err::<usize, ParseError>(ParseError::MalformedDpcm { reason: e })
                && final(deltas)@ == d,
        },
        final(deltas)@.len() == old(deltas)@.len(),
{
    let expected = match pixel_count.checked_mul(output_channels) {
        Some(v) => v,
        None => {
            return Err(ParseError::MalformedDpcm { reason: "row size overflow" });
        },
    };
    if deltas.len() != expected || !(1 <= input_channels && input_channels <= 4) || !(
    input_channels <= output_channels && output_channels <= 4) {
        return Err(ParseError::MalformedDpcm { reason: "invalid row buffer or channel count" });
    }
    let ghost s = compressed@;
    let ghost d0 = deltas@;
    let ghost pc = pixel_count as int;
    let ghost ic = input_channels as int;
    let ghost oc = output_channels as int;
    let mut bits = LsbBits::new(compressed);
    let mut channel: usize = 0;
    while channel < input_channels
        invariant
            bits.wf(),
            bits.data() == s,
            s == compressed@,
            d0 == old(deltas)@,
            d0.len() == pc * oc,
            pc * oc <= usize::MAX,
            pc == pixel_count,
            ic == input_channels,
            oc == output_channels,
            1 <= ic <= oc <= 4,
            channel <= input_channels,
            deltas@.len() == pc * oc,
            delta_row_run(s, 0, 0, 0, d0, pc, ic, oc) == delta_row_run(
                s,
                bits.pos(),
                channel as int,
                0,
                deltas@,
                pc,
                ic,
                oc,
            ),
        decreases input_channels - channel,
    {
        let mut written: usize = 0;
        while written < pixel_count
            invariant
                bits.wf(),
                bits.data() == s,
                s == compressed@,
                d0 == old(deltas)@,
                d0.len() == pc * oc,
                pc * oc <= usize::MAX,
            d0.len() == pc * oc,
            pc * oc <= usize::MAX,
                pc == pixel_count,
                ic == input_channels,
                oc == output_channels,
                1 <= ic <= oc <= 4,
                channel < input_channels,
                written <= pixel_count,
                deltas@.len() == pc * oc,
                delta_row_run(s, 0, 0, 0, d0, pc, ic, oc) == delta_row_run(
                    s,
                    bits.pos(),
                    channel as int,
                    written as int,
                    deltas@,
                    pc,
                    ic,
                    oc,
                ),
            decreases pixel_count - written,
        {
            let ghost before = bits.pos();
            let sym = match read_symbol(&mut bits) {
                Ok(sym) => sym,
                Err(e) => {
                    return Err(e);
                },
            };
            match sym {
                RowSymbol::Zero => {
                    proof {
                        lemma_index_in_row(written as int, channel as int, pc, oc);
                    }
                    deltas.set(written * output_channels + channel, 0);
                    written = written + 1;
                },
                RowSymbol::Delta(d) => {
                    proof {
                        lemma_index_in_row(written as int, channel as int, pc, oc);
                    }
                    deltas.set(written * output_channels + channel, d);
                    written = written + 1;
                },
                RowSymbol::Run(n) => {
                    proof {
                        lemma_run_is_long(s, before);
                    }
                    let run = n as usize;
                    if run > pixel_count - written {
                        return Err(ParseError::MalformedDpcm { reason: "zero run exceeds row width" });
                    }
                    written = written + run;
                },
            }
        }
        channel = channel + 1;
    }
    proof {
        bits.lemma_pos_bound();
    }
    Ok(bits.bytes_consumed())
}

} // verus!
