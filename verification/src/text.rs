//! Building text: decimal and hexadecimal digits appended to a `String`.

use vstd::prelude::*;
use vstd::string::StringExecFns;

verus! {

/// `String::push` from std: appends one character.
#[verifier::external_body]
pub(crate) fn push_char(s: &mut String, c: char)
    ensures
        final(s)@ == old(s)@.push(c),
{
    s.push(c);
}

/// `char::from_u32` from std: the character whose scalar value is `v`, if
/// `v` is a Unicode scalar value (at most 0x10FFFF and not a surrogate).
#[verifier::external_body]
pub(crate) fn char_from_u32(v: u32) -> (r: Option<char>)
    ensures
        (v <= 0x10FFFF && !(0xD800 <= v <= 0xDFFF)) <==> r is Some,
        r matches Some(c) ==> c as u32 == v && c == (v as char),
{
    char::from_u32(v)
}

/// `u32::from(char)` from std: the character's Unicode scalar value, which
/// is at most 0x10FFFF and never a surrogate (0xD800 to 0xDFFF).
#[verifier::external_body]
pub(crate) fn char_to_u32(c: char) -> (r: u32)
    ensures
        r as int == c as int,
        r <= 0xD7FF || 0xE000 <= r <= 0x10FFFF,
{
    u32::from(c)
}

/// The ASCII decimal digit for `d`.
pub open spec fn digit_char(d: nat) -> char {
    (48 + d) as char
}

/// The decimal representation of `n`, most significant digit first.
pub open spec fn decimal(n: nat) -> Seq<char>
    decreases n,
{
    if n < 10 {
        seq![digit_char(n)]
    } else {
        decimal(n / 10).push(digit_char(n % 10))
    }
}

/// The lower-case hexadecimal digit for `d < 16`.
pub open spec fn hex_char(d: nat) -> char {
    if d < 10 {
        (48 + d) as char
    } else {
        (87 + d) as char
    }
}

/// Appends the decimal representation of `n` to `s`.
pub fn append_decimal(s: &mut String, n: u64)
    ensures
        final(s)@ == old(s)@ + decimal(n as nat),
    decreases n,
{
    if n >= 10 {
        append_decimal(s, n / 10);
    }
    let d = (n % 10) as u8;
    push_char(s, (48 + d) as char);
    assert(final(s)@ =~= old(s)@ + decimal(n as nat)) by {
        if n >= 10 {
            assert(old(s)@ + decimal(n as nat) =~= (old(s)@ + decimal((n / 10) as nat)).push(
                digit_char((n % 10) as nat),
            ));
        }
    }
}

/// Appends two lower-case hexadecimal digits for `b` to `s`.
pub fn append_hex_byte(s: &mut String, b: u8)
    ensures
        final(s)@ == old(s)@ + seq![hex_char((b / 16) as nat), hex_char((b % 16) as nat)],
{
    let hi = b / 16;
    let lo = b % 16;
    let c1 = if hi < 10 { (48 + hi) as char } else { (87 + hi) as char };
    let c2 = if lo < 10 { (48 + lo) as char } else { (87 + lo) as char };
    push_char(s, c1);
    push_char(s, c2);
    assert(final(s)@ =~= old(s)@ + seq![hex_char((b / 16) as nat), hex_char((b % 16) as nat)]);
}

/// Appends a string slice to `s`.
pub fn append_str(s: &mut String, t: &str)
    ensures
        final(s)@ == old(s)@ + t@,
{
    s.append(t);
}

} // verus!
