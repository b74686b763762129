use sai2_parser::psd::{
    packbits_row_len, psd_blend_key_for, write_layered, write_packbits_row, write_rle_gray_plane,
};
use sai2_parser::{decode_layers, DecodeLimits, RgbaImage, SAI2_MAGIC};

fn decode_packbits_test_row(encoded: &[u8]) -> Vec<u8> {
    let mut decoded = Vec::new();
    let mut offset = 0;
    while offset < encoded.len() {
        let header = i8::from_ne_bytes([encoded[offset]]);
        offset += 1;
        if header >= 0 {
            let length = usize::from(u8::try_from(header).unwrap()) + 1;
            decoded.extend_from_slice(&encoded[offset..offset + length]);
            offset += length;
        } else if header != -128 {
            let length = usize::from(u8::try_from(1_i16 - i16::from(header)).unwrap());
            decoded.extend(std::iter::repeat_n(encoded[offset], length));
            offset += 1;
        }
    }
    decoded
}

fn be16(bytes: &[u8]) -> u16 {
    u16::from_be_bytes(bytes.try_into().unwrap())
}

fn be32(bytes: &[u8]) -> u32 {
    u32::from_be_bytes(bytes.try_into().unwrap())
}

/// A `layr` body with the given ID, type, flags and UTF-16 name.
fn layr_body(id: u32, kind: &[u8; 4], blend: &[u8; 4], flags: u32, name: &str) -> Vec<u8> {
    let mut layr = vec![0_u8; 56];
    layr[0..4].copy_from_slice(b"layr");
    layr[4..8].copy_from_slice(&id.to_le_bytes());
    layr[16..20].copy_from_slice(kind);
    layr[44..48].copy_from_slice(blend);
    layr[48..52].copy_from_slice(&100_u32.to_le_bytes());
    layr[52..56].copy_from_slice(&flags.to_le_bytes());
    let units: Vec<u16> = name.encode_utf16().collect();
    layr.extend_from_slice(b"name");
    layr.extend_from_slice(&u32::try_from(2 + units.len() * 2).unwrap().to_le_bytes());
    layr.extend_from_slice(&u16::try_from(units.len()).unwrap().to_le_bytes());
    for unit in units {
        layr.extend_from_slice(&unit.to_le_bytes());
    }
    layr.extend_from_slice(&[0, 0, 0, 0]);
    layr
}

/// A SAI2 document of the given canvas holding the given chunks.
fn document(width: u32, height: u32, chunks: &[(&[u8; 4], u32, Vec<u8>)]) -> Vec<u8> {
    let table_end = 64 + chunks.len() * 16;
    let mut document = vec![0_u8; table_end];
    document[0..16].copy_from_slice(&SAI2_MAGIC);
    document[16..20].copy_from_slice(&0x0100_u32.to_le_bytes());
    document[20..24].copy_from_slice(&width.to_le_bytes());
    document[24..28].copy_from_slice(&height.to_le_bytes());
    document[32..36].copy_from_slice(&u32::try_from(chunks.len()).unwrap().to_le_bytes());
    document[60..64].copy_from_slice(b"norm");
    let mut offset = table_end;
    for (index, (kind, id, body)) in chunks.iter().enumerate() {
        let entry = 64 + index * 16;
        document[entry..entry + 4].copy_from_slice(*kind);
        document[entry + 4..entry + 8].copy_from_slice(&id.to_le_bytes());
        document[entry + 8..entry + 16]
            .copy_from_slice(&u64::try_from(offset).unwrap().to_le_bytes());
        offset += body.len();
    }
    for (_, _, body) in chunks {
        document.extend_from_slice(body);
    }
    document
}

fn white(width: u32, height: u32) -> RgbaImage {
    RgbaImage::from_pixels(width, height, vec![255; (width * height * 4) as usize])
}

#[test]
fn packbits_length_matches_encoded_rows() {
    let rows = [
        vec![7; 300],
        (0_u8..=255).collect::<Vec<_>>(),
        vec![1, 1, 2, 2, 3, 3, 3, 4, 5, 5, 6],
    ];
    for row in rows {
        let mut encoded = Vec::new();
        write_packbits_row(&mut encoded, &row);
        assert_eq!(encoded.len(), packbits_row_len(&row));
    }
}

#[test]
fn maps_all_known_sai2_blend_keys_to_photoshop() {
    let mappings = [
        (*b"norm", *b"norm"),
        (*b"pass", *b"pass"),
        (*b"mult", *b"mul "),
        (*b"scrn", *b"scrn"),
        (*b"over", *b"over"),
        (*b"sbad", *b"lbrn"),
        (*b"burn", *b"lddg"),
        (*b"ddge", *b"lLit"),
        (*b"bndg", *b"idiv"),
        (*b"ilit", *b"div "),
        (*b"cdif", *b"vLit"),
        (*b"slit", *b"sLit"),
        (*b"hlit", *b"hLit"),
        (*b"plit", *b"pLit"),
        (*b"hmix", *b"hMix"),
        (*b"dark", *b"dark"),
        (*b"litn", *b"lite"),
        (*b"drkc", *b"dkCl"),
        (*b"litc", *b"lgCl"),
        (*b"diff", *b"diff"),
        (*b"excl", *b"smud"),
        (*b"fsub", *b"fsub"),
        (*b"fdiv", *b"fdiv"),
        (*b"hue ", *b"hue "),
        (*b"sat ", *b"sat "),
        (*b"col ", *b"colr"),
        (*b"lum ", *b"lum "),
        (*b"sub ", *b"fsub"),
        (*b"add ", *b"lddg"),
        (*b"lbrn", *b"lbrn"),
        (*b"lddg", *b"lddg"),
        (*b"llit", *b"lLit"),
        (*b"cbrn", *b"idiv"),
        (*b"cddg", *b"div "),
        (*b"vlit", *b"vLit"),
    ];

    for (sai2, photoshop) in mappings {
        assert_eq!(psd_blend_key_for(sai2), photoshop, "SAI2 {sai2:?}");
    }
    assert_eq!(psd_blend_key_for(*b"????"), *b"norm");
}

#[test]
fn inverts_sai2_mask_values_when_writing_a_psd_mask_channel() {
    let mut channel = Vec::new();
    write_rle_gray_plane(&mut channel, &[0, 1, 127, 254, 255], 5, 1).unwrap();

    assert_eq!(u16::from_be_bytes(channel[0..2].try_into().unwrap()), 1);
    let encoded_len = usize::from(u16::from_be_bytes(channel[2..4].try_into().unwrap()));
    assert_eq!(encoded_len, channel.len() - 4);
    assert_eq!(
        decode_packbits_test_row(&channel[4..]),
        [255, 254, 128, 1, 0]
    );
}

#[test]
fn packbits_encodes_runs_and_literals_exactly() {
    let mut encoded = Vec::new();
    write_packbits_row(&mut encoded, &[7; 300]);
    // Runs of 128, 128 and 44 copies.
    assert_eq!(encoded, [129, 7, 129, 7, 213, 7]);

    let mut encoded = Vec::new();
    write_packbits_row(&mut encoded, &[1, 1, 2, 2, 3, 3, 3, 4, 5, 5, 6]);
    // Pairs stay literal; the triple becomes a run.
    assert_eq!(encoded, [3, 1, 1, 2, 2, 254, 3, 3, 4, 5, 5, 6]);

    let mut encoded = Vec::new();
    write_packbits_row(&mut encoded, &[]);
    assert!(encoded.is_empty());
    assert_eq!(packbits_row_len(&[]), 0);
}

#[test]
fn packbits_rows_decode_to_themselves() {
    let rows: Vec<Vec<u8>> = vec![
        vec![7; 300],
        (0_u8..=255).collect(),
        (0..1000).map(|i| ((i / 3) % 5) as u8).collect(),
        vec![9],
        vec![4, 4],
        vec![4, 4, 4],
    ];
    for row in rows {
        let mut encoded = Vec::new();
        write_packbits_row(&mut encoded, &row);
        assert_eq!(decode_packbits_test_row(&encoded), row);
        assert!(encoded.len() <= 2 * row.len());
    }
}

#[test]
fn gray_plane_rejects_inconsistent_input() {
    let mut channel = vec![42];
    assert_eq!(
        write_rle_gray_plane(&mut channel, &[0, 1, 2], 2, 2),
        Err("grayscale pixel length does not match PSD dimensions".to_owned())
    );
    assert_eq!(channel, [42]);

    let mut channel = Vec::new();
    write_rle_gray_plane(&mut channel, &[10, 10, 10, 20, 20, 20], 3, 2).unwrap();
    // Method 1, two row sizes, then the two inverted rows.
    assert_eq!(channel, [0, 1, 0, 2, 0, 2, 254, 245, 254, 235]);
}

#[test]
fn unknown_blend_keys_become_normal() {
    assert_eq!(psd_blend_key_for(*b"NORM"), *b"norm");
    assert_eq!(psd_blend_key_for([0, 0, 0, 0]), *b"norm");
    assert_eq!(psd_blend_key_for(*b"pass"), *b"pass");
}

fn two_layer_document() -> Vec<u8> {
    document(
        4,
        2,
        &[
            (b"layr", 1, layr_body(1, b"blur", b"mult", 0x0001_0000, "Top")),
            (b"layr", 2, layr_body(2, b"blur", b"norm", 0x0000_0100, "Bottom")),
        ],
    )
}

#[test]
fn writes_a_layered_psd_with_a_white_background() {
    let source = two_layer_document();
    let layers = decode_layers(&source, DecodeLimits::default()).expect("layers should decode");
    assert_eq!(layers.len(), 2);
    let composite = white(4, 2);
    let mut psd = vec![0xaa];
    write_layered(&mut psd, 4, 2, &layers, &composite, &source, true).expect("PSD should encode");
    let psd = &psd[1..];

    assert_eq!(&psd[..4], b"8BPS");
    assert_eq!(be16(&psd[4..6]), 1);
    assert_eq!(be16(&psd[12..14]), 4);
    assert_eq!(be32(&psd[14..18]), 2);
    assert_eq!(be32(&psd[18..22]), 4);
    assert_eq!(be16(&psd[22..24]), 8);
    assert_eq!(be16(&psd[24..26]), 3);
    // Background plus two layers.
    assert_eq!(be16(&psd[42..44]) as i16, 3);
    // The layer-and-mask section holds exactly the layer information and the
    // empty global mask.
    let section = be32(&psd[34..38]) as usize;
    let info = be32(&psd[38..42]) as usize;
    assert_eq!(section, info + 8);
    assert_eq!(info % 2, 0);
    assert_eq!(be32(&psd[38 + 4 + info..38 + 8 + info]), 0);
    // The merged image follows: compression 1 and 4 x 2 row sizes.
    let image = &psd[34 + 4 + section..];
    assert_eq!(be16(&image[0..2]), 1);

    let names = psd.windows(22).filter(|w| *w == b"SAI2 Canvas Background").count();
    assert_eq!(names, 1);
    assert_eq!(psd.windows(8).filter(|w| *w == b"8BIMs2ly").count(), 2);
    assert_eq!(psd.windows(8).filter(|w| *w == b"SAI2LYR\0").count(), 2);
    assert!(psd.windows(8).any(|w| w == b"8BIMmul "));
    assert!(psd.windows(8).any(|w| w == b"8BIMluni"));
}

#[test]
fn preserves_layer_chunks_and_flags_in_bottom_up_order() {
    let source = two_layer_document();
    let layers = decode_layers(&source, DecodeLimits::default()).unwrap();
    let composite = white(4, 2);
    let mut psd = Vec::new();
    write_layered(&mut psd, 4, 2, &layers, &composite, &source, false).unwrap();
    assert_eq!(be16(&psd[42..44]), 2);

    // Records are bottom-up: the "Bottom" (alpha-locked, hidden) layer first.
    let records: Vec<usize> = psd
        .windows(8)
        .enumerate()
        .filter(|(_, w)| *w == b"8BIMnorm" || *w == b"8BIMmul ")
        .map(|(at, _)| at)
        .collect();
    assert_eq!(records.len(), 2);
    assert_eq!(&psd[records[0] + 4..records[0] + 8], b"norm");
    assert_eq!(psd[records[0] + 8], 255);
    assert_eq!(psd[records[0] + 9], 0);
    assert_eq!(psd[records[0] + 10], 1 | 2);
    assert_eq!(&psd[records[1] + 4..records[1] + 8], b"mul ");
    assert_eq!(psd[records[1] + 10], 0);

    // The first s2ly block preserves the bottom layer's single chunk.
    let block = psd.windows(8).position(|w| w == b"8BIMs2ly").unwrap();
    let payload_len = be32(&psd[block + 8..block + 12]) as usize;
    let payload = &psd[block + 12..block + 12 + payload_len];
    assert_eq!(&payload[..8], b"SAI2LYR\0");
    assert_eq!(be32(&payload[8..12]), 1);
    assert_eq!(be32(&payload[12..16]), 1);
    assert_eq!(&payload[16..20], b"layr");
    assert_eq!(be32(&payload[20..24]), 2);
    let offset = u64::from_be_bytes(payload[24..32].try_into().unwrap()) as usize;
    let size = u64::from_be_bytes(payload[32..40].try_into().unwrap()) as usize;
    assert_eq!(&payload[40..40 + size], &source[offset..offset + size]);
    assert_eq!(payload.len(), 40 + size);
}

#[test]
fn brackets_a_folder_with_a_divider() {
    let source = document(
        2,
        2,
        &[
            (b"layr", 1, layr_body(1, b"fold", b"pass", 0x0001_0000, "Folder")),
            (b"layr", 2, layr_body(2, b"blur", b"norm", 0x0001_0001, "Inside")),
        ],
    );
    let layers = decode_layers(&source, DecodeLimits::default()).unwrap();
    assert_eq!(layers[0].nesting_level(), 0);
    assert!(layers[0].is_folder());
    assert_eq!(layers[1].nesting_level(), 1);
    let mut psd = Vec::new();
    write_layered(&mut psd, 2, 2, &layers, &white(2, 2), &source, false).unwrap();
    // Divider, inside layer, folder.
    assert_eq!(be16(&psd[42..44]), 3);
    assert!(psd.windows(14).any(|w| w == b"</Layer group>"));
    let dividers: Vec<u32> = psd
        .windows(8)
        .enumerate()
        .filter(|(_, w)| *w == b"8BIMlsct")
        .map(|(at, _)| be32(&psd[at + 12..at + 16]))
        .collect();
    assert_eq!(dividers, [3, 1]);
    assert!(psd.windows(8).any(|w| w == b"8BIMpass"));
}

#[test]
fn rejects_bad_canvases_and_layers() {
    let source = two_layer_document();
    let layers = decode_layers(&source, DecodeLimits::default()).unwrap();
    let mut psd = vec![1, 2];
    assert_eq!(
        write_layered(&mut psd, 0, 2, &layers, &white(4, 2), &source, true),
        Err("PSD 1.0 dimensions must be within 1..=30000, found 0 x 2".to_owned())
    );
    assert_eq!(
        write_layered(&mut psd, 30001, 2, &layers, &white(4, 2), &source, true),
        Err("PSD 1.0 dimensions must be within 1..=30000, found 30001 x 2".to_owned())
    );
    assert_eq!(
        write_layered(&mut psd, 4, 2, &layers, &white(2, 2), &source, true),
        Err("composite dimensions do not match the SAI2 canvas".to_owned())
    );
    assert_eq!(
        write_layered(&mut psd, 4, 2, &layers, &white(4, 2), &source[..100], true),
        Err("SAI2 source does not contain a preserved layer chunk".to_owned())
    );
    let short = RgbaImage::from_pixels(4, 2, vec![0; 31]);
    assert_eq!(
        write_layered(&mut psd, 4, 2, &layers, &short, &source, true),
        Err("RGBA pixel length does not match PSD dimensions".to_owned())
    );
    assert_eq!(psd, [1, 2]);
}

#[test]
fn rejects_shape_layers_and_unclosed_folders() {
    let shape = document(
        2,
        2,
        &[(b"layr", 7, layr_body(7, b"shap", b"norm", 0x0001_0000, "Star"))],
    );
    let layers = decode_layers(&shape, DecodeLimits::default()).unwrap();
    let mut psd = Vec::new();
    assert_eq!(
        write_layered(&mut psd, 2, 2, &layers, &white(2, 2), &shape, false),
        Err("shape layer 7 (Star) has no decoded geometry".to_owned())
    );

    let unclosed = document(
        2,
        2,
        &[(b"layr", 3, layr_body(3, b"blur", b"norm", 0x0001_0002, "Deep"))],
    );
    let layers = decode_layers(&unclosed, DecodeLimits::default()).unwrap();
    assert_eq!(
        write_layered(&mut psd, 2, 2, &layers, &white(2, 2), &unclosed, false),
        Err("unclosed SAI2 folder depth 2".to_owned())
    );

    let misnested = document(
        2,
        2,
        &[
            (b"layr", 4, layr_body(4, b"blur", b"norm", 0x0001_0000, "Up")),
            (b"layr", 5, layr_body(5, b"blur", b"norm", 0x0001_0001, "Down")),
        ],
    );
    let layers = decode_layers(&misnested, DecodeLimits::default()).unwrap();
    assert_eq!(
        write_layered(&mut psd, 2, 2, &layers, &white(2, 2), &misnested, false),
        Err("layer 4 does not close folder depth 1".to_owned())
    );
    assert!(psd.is_empty());
}

#[test]
fn counts_layers_that_become_placeholders() {
    let source = document(
        2,
        2,
        &[
            (b"layr", 1, layr_body(1, b"fold", b"pass", 0x0001_0000, "Folder")),
            (b"layr", 2, layr_body(2, b"blur", b"norm", 0x0001_0001, "Text")),
            (b"layr", 3, layr_body(3, b"blur", b"norm", 0x0001_0001, "Lines")),
        ],
    );
    let layers = decode_layers(&source, DecodeLimits::default()).unwrap();
    assert_eq!(sai2_parser::psd::placeholder_count(&layers), 2);
    assert_eq!(sai2_parser::psd::placeholder_count(&layers[..1]), 0);
}

#[test]
fn announced_sections_match_the_written_bytes_without_background() {
    let source = two_layer_document();
    let layers = decode_layers(&source, DecodeLimits::default()).unwrap();
    let mut psd = Vec::new();
    write_layered(&mut psd, 4, 2, &layers, &white(4, 2), &source, false).unwrap();
    let section = be32(&psd[34..38]) as usize;
    let info = be32(&psd[38..42]) as usize;
    // Layer count, records and channel data, padded to an even size.
    assert_eq!(section, info + 8);
    let composite = &psd[38 + section..];
    // Compression method, 4 x 2 row sizes, and one run per row.
    assert_eq!(composite.len(), 2 + 16 + 8 * 2);
    assert_eq!(psd.len(), 42 + info + 4 + composite.len());
}

#[test]
fn writes_names_outside_the_basic_plane_as_surrogate_pairs() {
    let source = document(1, 1, &[(b"layr", 7, layr_body(7, b"blur", b"norm", 0x0001_0000, "A\u{1F600}"))]);
    let layers = decode_layers(&source, DecodeLimits::default()).unwrap();
    assert_eq!(layers[0].name(), "A\u{1F600}");
    let mut psd = Vec::new();
    write_layered(&mut psd, 1, 1, &layers, &white(1, 1), &source, false).unwrap();
    let at = psd.windows(8).position(|w| w == b"8BIMluni").unwrap();
    assert_eq!(be32(&psd[at + 8..at + 12]), 10);
    assert_eq!(be32(&psd[at + 12..at + 16]), 3);
    assert_eq!(&psd[at + 16..at + 22], &[0x00, 0x41, 0xD8, 0x3D, 0xDE, 0x00]);
}
