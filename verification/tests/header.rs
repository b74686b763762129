use sai2_parser::{FourCc, ParseError, Sai2Header, HEADER_LEN, SAI2_MAGIC};

fn valid_header() -> [u8; HEADER_LEN] {
    let mut bytes = [0_u8; HEADER_LEN];
    bytes[0..16].copy_from_slice(&SAI2_MAGIC);
    bytes[16..20].copy_from_slice(&0x0100_u32.to_le_bytes());
    bytes[20..24].copy_from_slice(&4096_u32.to_le_bytes());
    bytes[24..28].copy_from_slice(&2048_u32.to_le_bytes());
    bytes[28..32].copy_from_slice(&0x1122_3344_u32.to_le_bytes());
    bytes[32..36].copy_from_slice(&12_u32.to_le_bytes());
    bytes[36..40].copy_from_slice(&0x5566_7788_u32.to_le_bytes());
    bytes[56..60].copy_from_slice(&0xff80_8080_u32.to_le_bytes());
    bytes[60..64].copy_from_slice(b"norm");
    bytes
}

#[test]
fn parses_documented_header_fields() {
    let header = Sai2Header::parse(&valid_header()).expect("valid header should parse");

    assert_eq!(header.flags(), 0x0100);
    assert!(!header.integrated_image_has_alpha());
    assert_eq!(header.width(), 4096);
    assert_eq!(header.height(), 2048);
    assert_eq!(header.unknown_0(), 0x1122_3344);
    assert_eq!(header.chunk_count(), 12);
    assert_eq!(header.unknown_1(), 0x5566_7788);
    assert_eq!(header.reserved(), [0; 16]);
    assert_eq!(header.background_color(), 0xff80_8080);
    assert_eq!(header.format_tag(), FourCc::from_bytes(*b"norm"));
}

#[test]
fn identifies_the_observed_transparent_integrated_image_flag() {
    let mut bytes = valid_header();
    bytes[16..20].copy_from_slice(&0x2000_u32.to_le_bytes());

    let header = Sai2Header::parse(&bytes).unwrap();

    assert!(header.integrated_image_has_alpha());
}

#[test]
fn rejects_every_truncated_header_length() {
    let bytes = valid_header();

    for length in 0..HEADER_LEN {
        assert_eq!(
            Sai2Header::parse(&bytes[..length]),
            Err(ParseError::Truncated {
                expected: HEADER_LEN,
                actual: length,
            })
        );
    }
}

#[test]
fn rejects_an_invalid_signature() {
    let mut bytes = valid_header();
    bytes[0] = b'X';

    assert!(matches!(
        Sai2Header::parse(&bytes),
        Err(ParseError::InvalidSignature { .. })
    ));
}

#[test]
fn preserves_undocumented_and_unknown_values() {
    let mut bytes = valid_header();
    bytes[40..56].copy_from_slice(&[1, 2, 3, 4, 5, 6, 7, 8, 9, 10, 11, 12, 13, 14, 15, 16]);
    bytes[60..64].copy_from_slice(&[0, b'X', 0xff, b' ']);

    let header = Sai2Header::parse(&bytes).expect("unknown values should be preserved");

    assert_eq!(
        header.reserved(),
        [1, 2, 3, 4, 5, 6, 7, 8, 9, 10, 11, 12, 13, 14, 15, 16]
    );
    assert_eq!(header.format_tag().as_bytes(), [0, b'X', 0xff, b' ']);
    assert_eq!(header.format_tag().to_display_string(), "\\x00X\\xff ");
}

#[test]
fn ignores_bytes_after_the_fixed_header() {
    let mut bytes = valid_header().to_vec();
    bytes.extend_from_slice(b"future chunk data");

    let header = Sai2Header::parse(&bytes).expect("trailing data belongs to later phases");

    assert_eq!(header.chunk_count(), 12);
}

#[test]
fn invalid_signature_reports_the_found_bytes() {
    let mut bytes = valid_header();
    bytes[3] = b'!';
    let mut expected = SAI2_MAGIC;
    expected[3] = b'!';
    assert_eq!(
        Sai2Header::parse(&bytes),
        Err(ParseError::InvalidSignature { found: expected })
    );
}

#[test]
fn displays_printable_identifiers_unchanged() {
    assert_eq!(FourCc::from_bytes(*b"norm").to_display_string(), "norm");
    assert!(FourCc::from_bytes(*b"intg").is(*b"intg"));
    assert!(!FourCc::from_bytes(*b"intg").is(*b"intG"));
}
