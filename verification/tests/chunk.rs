use sai2_parser::{FourCc, ParseError, Sai2Document, SAI2_MAGIC};

fn document_with_chunks() -> Vec<u8> {
    let mut bytes = vec![0_u8; 106];
    bytes[0..16].copy_from_slice(&SAI2_MAGIC);
    bytes[20..24].copy_from_slice(&32_u32.to_le_bytes());
    bytes[24..28].copy_from_slice(&32_u32.to_le_bytes());
    bytes[32..36].copy_from_slice(&2_u32.to_le_bytes());
    bytes[60..64].copy_from_slice(b"norm");

    bytes[64..68].copy_from_slice(b"hist");
    bytes[68..72].copy_from_slice(&7_u32.to_le_bytes());
    bytes[72..76].copy_from_slice(&96_u32.to_le_bytes());

    bytes[80..84].copy_from_slice(&[0xff, 0, b'X', b' ']);
    bytes[84..88].copy_from_slice(&9_u32.to_le_bytes());
    bytes[88..92].copy_from_slice(&100_u32.to_le_bytes());

    bytes[96..100].copy_from_slice(b"1234");
    bytes[100..106].copy_from_slice(b"567890");
    bytes
}

#[test]
fn parses_chunk_metadata_and_derives_sizes() {
    let document =
        Sai2Document::parse(&document_with_chunks()).expect("chunk table should parse");

    assert_eq!(document.chunks().len(), 2);
    assert_eq!(document.chunks()[0].kind(), FourCc::from_bytes(*b"hist"));
    assert_eq!(document.chunks()[0].object_id(), 7);
    assert_eq!(document.chunks()[0].offset(), 96);
    assert_eq!(document.chunks()[0].size(), 4);
    assert_eq!(
        document.chunks()[1].kind().as_bytes(),
        [0xff, 0, b'X', b' ']
    );
    assert_eq!(document.chunks()[1].offset(), 100);
    assert_eq!(document.chunks()[1].size(), 6);
}

#[test]
fn rejects_a_truncated_chunk_table_before_allocating() {
    let mut bytes = document_with_chunks();
    bytes.truncate(95);

    assert_eq!(
        Sai2Document::parse(&bytes),
        Err(ParseError::Truncated {
            expected: 96,
            actual: 95,
        })
    );
}

#[test]
fn rejects_offsets_inside_the_chunk_table() {
    let mut bytes = document_with_chunks();
    bytes[72..76].copy_from_slice(&95_u32.to_le_bytes());

    assert!(matches!(
        Sai2Document::parse(&bytes),
        Err(ParseError::InvalidChunkOffset { index: 0, .. })
    ));
}

#[test]
fn rejects_offsets_after_the_end_of_the_file() {
    let mut bytes = document_with_chunks();
    bytes[88..92].copy_from_slice(&107_u32.to_le_bytes());

    assert!(matches!(
        Sai2Document::parse(&bytes),
        Err(ParseError::InvalidChunkOffset { index: 1, .. })
    ));
}

#[test]
fn rejects_decreasing_offsets() {
    let mut bytes = document_with_chunks();
    bytes[72..76].copy_from_slice(&101_u32.to_le_bytes());

    assert!(matches!(
        Sai2Document::parse(&bytes),
        Err(ParseError::ChunkOffsetsOutOfOrder { index: 1, .. })
    ));
}

#[test]
fn retains_equal_offsets_as_an_empty_chunk() {
    let mut bytes = document_with_chunks();
    bytes[72..76].copy_from_slice(&100_u32.to_le_bytes());

    let document = Sai2Document::parse(&bytes).expect("equal offsets should remain readable");

    assert_eq!(document.chunks()[0].size(), 0);
    assert_eq!(document.chunks()[1].size(), 6);
}

#[test]
fn accepts_an_empty_chunk_table() {
    let mut bytes = document_with_chunks();
    bytes[32..36].copy_from_slice(&0_u32.to_le_bytes());
    bytes.truncate(64);

    let document = Sai2Document::parse(&bytes).expect("empty table should parse");

    assert!(document.chunks().is_empty());
}

#[test]
fn reports_every_field_of_an_out_of_range_offset() {
    let mut bytes = document_with_chunks();
    bytes[88..92].copy_from_slice(&107_u32.to_le_bytes());

    assert_eq!(
        Sai2Document::parse(&bytes),
        Err(ParseError::InvalidChunkOffset {
            index: 1,
            offset: 107,
            table_end: 96,
            file_len: 106,
        })
    );
}

#[test]
fn reports_both_offsets_of_a_decreasing_pair() {
    let mut bytes = document_with_chunks();
    bytes[72..76].copy_from_slice(&101_u32.to_le_bytes());

    assert_eq!(
        Sai2Document::parse(&bytes),
        Err(ParseError::ChunkOffsetsOutOfOrder {
            previous_index: 0,
            previous_offset: 101,
            index: 1,
            offset: 100,
        })
    );
}

#[test]
fn document_exposes_the_parsed_header() {
    let document = Sai2Document::parse(&document_with_chunks()).unwrap();
    assert_eq!(document.header().width(), 32);
    assert_eq!(document.header().chunk_count(), 2);
}

#[test]
fn chunk_bodies_are_contiguous_up_to_the_end_of_the_file() {
    let bytes = document_with_chunks();
    let document = Sai2Document::parse(&bytes).unwrap();
    let chunks = document.chunks();
    assert!(chunks[0].offset() >= 64 + 2 * 16);
    for pair in chunks.windows(2) {
        assert_eq!(pair[0].offset() + pair[0].size() as u64, pair[1].offset());
    }
    let last = chunks.last().unwrap();
    assert_eq!(last.offset() as usize + last.size(), bytes.len());
}
