//! The fixed 64-byte SAI2 header and four-byte identifiers.

use vstd::prelude::*;

use crate::bytes::{le_u32, read_array4, read_u32_le};
use crate::error::ParseError;
use crate::text::{append_hex_byte, hex_char, push_char};

verus! {

/// Size of the fixed SAI2 header in bytes.
pub const HEADER_LEN: usize = 64;

/// Signature at the beginning of a SAI2 document (`SAI-CANVAS-TYPE0`).
pub const SAI2_MAGIC: [u8; 16] = [83, 65, 73, 45, 67, 65, 78, 86, 65, 83, 45, 84, 89, 80, 69, 48];

/// The bytes of `SAI-CANVAS-TYPE0`.
pub open spec fn magic_seq() -> Seq<u8> {
    seq![83u8, 65, 73, 45, 67, 65, 78, 86, 65, 83, 45, 84, 89, 80, 69, 48]
}

/// The input is long enough for the header and starts with the signature.
pub open spec fn header_ok(s: Seq<u8>) -> bool {
    s.len() >= 64 && s.subrange(0, 16) == magic_seq()
}

/// The outcome of parsing the fixed header at the start of `s`.
pub open spec fn header_outcome(s: Seq<u8>, r: Result<Sai2Header, ParseError>) -> bool {
    if s.len() < 64 {
        r == Err::<Sai2Header, ParseError>(
            ParseError::Truncated { expected: 64, actual: s.len() as usize },
        )
    } else if s.subrange(0, 16) != magic_seq() {
        r matches Err(ParseError::InvalidSignature { found }) && found@ == s.subrange(0, 16)
    } else {
        r matches Ok(h) && h.parsed_from(s)
    }
}

/// A four-byte ASCII-oriented identifier stored without interpretation.
#[derive(Debug, Clone, Copy, PartialEq, Eq, Hash)]
pub struct FourCc([u8; 4]);

/// How one byte of a four-byte identifier is displayed: printable ASCII and
/// space as themselves, anything else as a `\xHH` escape.
pub open spec fn display_byte(b: u8) -> Seq<char> {
    if 0x20 <= b <= 0x7e {
        seq![b as char]
    } else {
        seq!['\\', 'x', hex_char((b / 16) as nat), hex_char((b % 16) as nat)]
    }
}

impl FourCc {
    pub closed spec fn spec_as_bytes(self) -> [u8; 4] {
        self.0
    }

    /// Creates an identifier from its exact bytes.
    pub fn from_bytes(bytes: [u8; 4]) -> (r: Self)
        ensures
            r.as_bytes() == bytes,
    {
        FourCc(bytes)
    }

    /// Returns the exact bytes found in the file.
    #[verifier::when_used_as_spec(spec_as_bytes)]
    pub fn as_bytes(self) -> (r: [u8; 4])
        ensures
            r == self.spec_as_bytes(),
    {
        self.0
    }

    /// Whether the identifier consists of exactly the given bytes.
    pub fn is(self, tag: [u8; 4]) -> (r: bool)
        ensures
            r == (self.as_bytes()@ == tag@),
    {
        let b = self.0;
        let r = b[0] == tag[0] && b[1] == tag[1] && b[2] == tag[2] && b[3] == tag[3];
        assert(r ==> b@ =~= tag@);
        r
    }

    /// The identifier as text: printable ASCII bytes and spaces appear as
    /// themselves and every other byte as a lower-case `\xHH` escape.
    pub fn to_display_string(&self) -> (r: String)
        ensures
            r@ == display_byte(self.as_bytes()[0]) + display_byte(self.as_bytes()[1])
                + display_byte(self.as_bytes()[2]) + display_byte(self.as_bytes()[3]),
    {
        let mut s = String::new();
        let mut i: usize = 0;
        while i < 4
            invariant
                i <= 4,
                s@ == (
                    if i == 0 {
                        Seq::<char>::empty()
                    } else if i == 1 {
                        display_byte(self.0[0])
                    } else if i == 2 {
                        display_byte(self.0[0]) + display_byte(self.0[1])
                    } else if i == 3 {
                        display_byte(self.0[0]) + display_byte(self.0[1]) + display_byte(self.0[2])
                    } else {
                        display_byte(self.0[0]) + display_byte(self.0[1]) + display_byte(self.0[2])
                            + display_byte(self.0[3])
                    }
                ),
            decreases 4 - i,
        {
            let byte = self.0[i];
            let ghost before = s@;
            if 0x20 <= byte && byte <= 0x7e {
                push_char(&mut s, byte as char);
            } else {
                push_char(&mut s, '\\');
                push_char(&mut s, 'x');
                append_hex_byte(&mut s, byte);
            }
            assert(s@ =~= before + display_byte(byte));
            i = i + 1;
        }
        s
    }
}

/// Parsed representation of the fixed 64-byte SAI2 header.
#[derive(Debug, Clone, PartialEq, Eq)]
pub struct Sai2Header {
    flags: u32,
    width: u32,
    height: u32,
    unknown_0: u32,
    chunk_count: u32,
    unknown_1: u32,
    reserved: [u8; 16],
    background_color: u32,
    format_tag: FourCc,
}

impl Sai2Header {
    pub closed spec fn spec_flags(&self) -> u32 {
        self.flags
    }

    pub closed spec fn spec_width(&self) -> u32 {
        self.width
    }

    pub closed spec fn spec_height(&self) -> u32 {
        self.height
    }

    pub closed spec fn spec_unknown_0(&self) -> u32 {
        self.unknown_0
    }

    pub closed spec fn spec_chunk_count(&self) -> u32 {
        self.chunk_count
    }

    pub closed spec fn spec_unknown_1(&self) -> u32 {
        self.unknown_1
    }

    pub closed spec fn spec_reserved(&self) -> [u8; 16] {
        self.reserved
    }

    pub closed spec fn spec_background_color(&self) -> u32 {
        self.background_color
    }

    pub closed spec fn spec_format_tag(&self) -> FourCc {
        self.format_tag
    }

    /// Every field holds the value stored at its documented offset of `s`.
    pub open spec fn parsed_from(&self, s: Seq<u8>) -> bool {
        &&& self.flags() as int == le_u32(s, 16)
        &&& self.width() as int == le_u32(s, 20)
        &&& self.height() as int == le_u32(s, 24)
        &&& self.unknown_0() as int == le_u32(s, 28)
        &&& self.chunk_count() as int == le_u32(s, 32)
        &&& self.unknown_1() as int == le_u32(s, 36)
        &&& self.reserved()@ == s.subrange(40, 56)
        &&& self.background_color() as int == le_u32(s, 56)
        &&& self.format_tag().as_bytes()@ == s.subrange(60, 64)
    }

    /// Parses the fixed header from the start of `input`.
    ///
    /// Extra bytes after the header are left untouched for later parsing
    /// phases. Unknown and reserved values are preserved instead of rejected.
    pub fn parse(input: &[u8]) -> (r: Result<Self, ParseError>)
        ensures
            header_outcome(input@, r),
    {
        if input.len() < HEADER_LEN {
            return Err(ParseError::Truncated { expected: HEADER_LEN, actual: input.len() });
        }
        let mut signature = [0u8; 16];
        let mut matches = true;
        let mut i: usize = 0;
        while i < 16
            invariant
                i <= 16,
                input@.len() >= HEADER_LEN,
                signature@.len() == 16,
                forall|j: int| 0 <= j < i ==> signature@[j] == input@[j],
                matches <==> (forall|j: int| 0 <= j < i ==> input@[j] == magic_seq()[j]),
            decreases 16 - i,
        {
            signature[i] = input[i];
            if input[i] != SAI2_MAGIC[i] {
                matches = false;
            }
            i = i + 1;
        }
        assert(signature@ =~= input@.subrange(0, 16));
        if !matches {
            assert(input@.subrange(0, 16) != magic_seq()) by {
                let j = choose|j: int| 0 <= j < 16 && input@[j] != magic_seq()[j];
                assert(input@.subrange(0, 16)[j] == input@[j]);
            }
            return Err(ParseError::InvalidSignature { found: signature });
        }
        assert(input@.subrange(0, 16) =~= magic_seq());
        let h = Sai2Header {
            flags: read_u32_le(input, 16),
            width: read_u32_le(input, 20),
            height: read_u32_le(input, 24),
            unknown_0: read_u32_le(input, 28),
            chunk_count: read_u32_le(input, 32),
            unknown_1: read_u32_le(input, 36),
            reserved: read_array16(input, 40),
            background_color: read_u32_le(input, 56),
            format_tag: FourCc::from_bytes(read_array4(input, 60)),
        };
        Ok(h)
    }

    #[verifier::when_used_as_spec(spec_flags)]
    pub fn flags(&self) -> (r: u32)
        ensures
            r == self.spec_flags(),
    {
        self.flags
    }

    /// Reports whether the saved integrated image uses an alpha channel: the
    /// second flag byte has at least three trailing zero bits.
    ///
    /// This bit interpretation is verified against the currently owned opaque
    /// and transparent fixtures. Unknown flag combinations remain accepted.
    pub fn integrated_image_has_alpha(&self) -> (r: bool)
        ensures
            r == ((self.flags() / 256) % 8 == 0),
    {
        (self.flags / 256) % 8 == 0
    }

    #[verifier::when_used_as_spec(spec_width)]
    pub fn width(&self) -> (r: u32)
        ensures
            r == self.spec_width(),
    {
        self.width
    }

    #[verifier::when_used_as_spec(spec_height)]
    pub fn height(&self) -> (r: u32)
        ensures
            r == self.spec_height(),
    {
        self.height
    }

    #[verifier::when_used_as_spec(spec_unknown_0)]
    pub fn unknown_0(&self) -> (r: u32)
        ensures
            r == self.spec_unknown_0(),
    {
        self.unknown_0
    }

    #[verifier::when_used_as_spec(spec_chunk_count)]
    pub fn chunk_count(&self) -> (r: u32)
        ensures
            r == self.spec_chunk_count(),
    {
        self.chunk_count
    }

    #[verifier::when_used_as_spec(spec_unknown_1)]
    pub fn unknown_1(&self) -> (r: u32)
        ensures
            r == self.spec_unknown_1(),
    {
        self.unknown_1
    }

    #[verifier::when_used_as_spec(spec_reserved)]
    pub fn reserved(&self) -> (r: [u8; 16])
        ensures
            r == self.spec_reserved(),
    {
        self.reserved
    }

    #[verifier::when_used_as_spec(spec_background_color)]
    pub fn background_color(&self) -> (r: u32)
        ensures
            r == self.spec_background_color(),
    {
        self.background_color
    }

    #[verifier::when_used_as_spec(spec_format_tag)]
    pub fn format_tag(&self) -> (r: FourCc)
        ensures
            r == self.spec_format_tag(),
    {
        self.format_tag
    }
}

fn read_array16(input: &[u8], off: usize) -> (r: [u8; 16])
    requires
        off + 16 <= input.len(),
    ensures
        r@ == input@.subrange(off as int, off + 16),
{
    let mut r = [0u8; 16];
    let mut i: usize = 0;
    while i < 16
        invariant
            i <= 16,
            off + 16 <= input.len(),
            r@.len() == 16,
            forall|j: int| 0 <= j < i ==> r@[j] == input@[off + j],
        decreases 16 - i,
    {
        r[i] = input[off + i];
        i = i + 1;
    }
    assert(r@ =~= input@.subrange(off as int, off + 16));
    r
}

/// Parsing looks at the fixed 64-byte header only: bytes after it change
/// neither whether the header is accepted nor what it holds.
pub proof fn lemma_header_ignores_trailing_bytes(
    head: Seq<u8>,
    rest: Seq<u8>,
    r: Result<Sai2Header, ParseError>,
)
    requires
        head.len() == 64,
    ensures
        header_ok(head + rest) == header_ok(head),
        header_outcome(head + rest, r) == header_outcome(head, r),
{
    let s = head + rest;
    assert(s.subrange(0, 64) =~= head);
    assert(s.subrange(0, 16) =~= head.subrange(0, 16));
    assert(s.subrange(40, 56) =~= head.subrange(40, 56));
    assert(s.subrange(60, 64) =~= head.subrange(60, 64));
    assert forall|i: int| 0 <= i < 64 implies s[i] == head[i] by {}
    if let Ok(h) = r {
        assert(h.parsed_from(s) == h.parsed_from(head));
    }
}


} // verus!
