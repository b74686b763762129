use sai2_parser::layer::{decode_name, parse_layer, scale_14_to_8, unpremultiply};
use sai2_parser::{decode_layers, DecodeLimits, ParseError, SAI2_MAGIC};

fn layr_body(id: u32, kind: &[u8; 4], name: Option<&str>, block_width: u32, block_height: u32) -> Vec<u8> {
    let mut layr = vec![0_u8; 56];
    layr[0..4].copy_from_slice(b"layr");
    layr[4..8].copy_from_slice(&id.to_le_bytes());
    layr[16..20].copy_from_slice(kind);
    layr[36..40].copy_from_slice(&block_width.to_le_bytes());
    layr[40..44].copy_from_slice(&block_height.to_le_bytes());
    layr[44..48].copy_from_slice(b"norm");
    layr[48..52].copy_from_slice(&100_u32.to_le_bytes());
    layr[52..56].copy_from_slice(&0x0001_0000_u32.to_le_bytes());
    if let Some(name) = name {
        let units: Vec<u16> = name.encode_utf16().collect();
        layr.extend_from_slice(b"name");
        let length = u32::try_from(2 + units.len() * 2).unwrap();
        layr.extend_from_slice(&length.to_le_bytes());
        layr.extend_from_slice(&u16::try_from(units.len()).unwrap().to_le_bytes());
        for unit in units {
            layr.extend_from_slice(&unit.to_le_bytes());
        }
    }
    layr.extend_from_slice(&[0, 0, 0, 0]);
    layr
}

fn document(width: u32, height: u32, chunks: &[(&[u8; 4], u32, Vec<u8>)]) -> Vec<u8> {
    let table_end = 64 + chunks.len() * 16;
    let mut document = vec![0_u8; table_end];
    document[0..16].copy_from_slice(&SAI2_MAGIC);
    document[16..20].copy_from_slice(&0x0100_u32.to_le_bytes());
    document[20..24].copy_from_slice(&width.to_le_bytes());
    document[24..28].copy_from_slice(&height.to_le_bytes());
    document[32..36].copy_from_slice(&u32::try_from(chunks.len()).unwrap().to_le_bytes());
    document[60..64].copy_from_slice(b"norm");
    let mut offset = table_end;
    for (index, (kind, id, body)) in chunks.iter().enumerate() {
        let entry = 64 + index * 16;
        document[entry..entry + 4].copy_from_slice(*kind);
        document[entry + 4..entry + 8].copy_from_slice(&id.to_le_bytes());
        document[entry + 8..entry + 16].copy_from_slice(&u64::try_from(offset).unwrap().to_le_bytes());
        offset += body.len();
    }
    for (_, _, body) in chunks {
        document.extend_from_slice(body);
    }
    document
}

fn synthetic_layer_document() -> Vec<u8> {
    let mut layr = vec![0_u8; 80];
    layr[0..4].copy_from_slice(b"layr");
    layr[4..8].copy_from_slice(&2_u32.to_le_bytes());
    layr[16..20].copy_from_slice(b"norm");
    layr[36..40].copy_from_slice(&1_u32.to_le_bytes());
    layr[40..44].copy_from_slice(&1_u32.to_le_bytes());
    layr[44..48].copy_from_slice(b"norm");
    layr[48..52].copy_from_slice(&100_u32.to_le_bytes());
    layr[52..56].copy_from_slice(&0x0001_0000_u32.to_le_bytes());
    layr[56..60].copy_from_slice(b"name");
    layr[60..64].copy_from_slice(&12_u32.to_le_bytes());
    layr[64..66].copy_from_slice(&4_u16.to_le_bytes());
    for (index, unit) in "Test".encode_utf16().enumerate() {
        let offset = 66 + index * 2;
        layr[offset..offset + 2].copy_from_slice(&unit.to_le_bytes());
    }

    let mut compressed = Vec::new();
    for _ in 0..4 {
        for _ in 0..7 {
            compressed.extend_from_slice(&[0x80, 0xff]);
        }
        compressed.extend_from_slice(&[0x80, 0x8f]);
    }
    let mut tile = Vec::new();
    tile.extend_from_slice(&0xa0ff_u16.to_le_bytes());
    tile.extend_from_slice(&u16::try_from(compressed.len()).unwrap().to_le_bytes());
    tile.extend_from_slice(&compressed);
    tile.extend_from_slice(&0xf1ff_u16.to_le_bytes());
    let mut lpix = Vec::new();
    lpix.extend_from_slice(b"dpcm");
    lpix.extend_from_slice(&u32::try_from(tile.len()).unwrap().to_le_bytes());
    lpix.extend_from_slice(&tile);

    let first_offset = 64 + 2 * 16;
    let second_offset = first_offset + layr.len();
    let mut document = vec![0_u8; first_offset];
    document[0..16].copy_from_slice(&SAI2_MAGIC);
    document[16..20].copy_from_slice(&0x0100_u32.to_le_bytes());
    document[20..24].copy_from_slice(&32_u32.to_le_bytes());
    document[24..28].copy_from_slice(&32_u32.to_le_bytes());
    document[32..36].copy_from_slice(&2_u32.to_le_bytes());
    document[60..64].copy_from_slice(b"norm");
    document[64..68].copy_from_slice(b"layr");
    document[68..72].copy_from_slice(&2_u32.to_le_bytes());
    document[72..80].copy_from_slice(&u64::try_from(first_offset).unwrap().to_le_bytes());
    document[80..84].copy_from_slice(b"lpix");
    document[84..88].copy_from_slice(&2_u32.to_le_bytes());
    document[88..96].copy_from_slice(&u64::try_from(second_offset).unwrap().to_le_bytes());
    document.extend_from_slice(&layr);
    document.extend_from_slice(&lpix);
    document
}

#[test]
fn decodes_a_synthetic_transparent_raster_layer() {
    let bytes = synthetic_layer_document();
    let layers = decode_layers(&bytes, DecodeLimits::default()).expect("layer should decode");
    assert_eq!(layers.len(), 1);
    assert_eq!(layers[0].id(), 2);
    assert_eq!(layers[0].name(), "Test");
    assert!(layers[0].visible());
    assert!(
        layers[0]
            .image()
            .expect("raster pixels should decode")
            .pixels()
            .iter()
            .all(|byte| *byte == 0)
    );
}

#[test]
fn retains_every_chunk_sharing_the_layer_id() {
    let bytes = synthetic_layer_document();
    let layers = decode_layers(&bytes, DecodeLimits::default()).unwrap();
    let sources = layers[0].source_chunks();
    assert_eq!(sources.len(), 2);
    assert_eq!(sources[0].kind().as_bytes(), *b"layr");
    assert_eq!(sources[1].kind().as_bytes(), *b"lpix");
    assert_eq!(layers[0].block_dimensions(), (1, 1));
    assert_eq!(layers[0].block_origin(), (0, 0));
    assert_eq!(layers[0].tile_count(), 1);
    assert_eq!(layers[0].opacity(), 100);
    assert_eq!(layers[0].blend_mode().as_bytes(), *b"norm");
}

#[test]
fn uses_a_default_name_without_a_name_parameter() {
    let layr = layr_body(37, b"norm", None, 0, 0);
    let layer = parse_layer(&layr).unwrap();
    assert_eq!(layer.name(), "Layer 37");
    assert_eq!(layer.id(), 37);
}

#[test]
fn decodes_a_unicode_layer_name_with_a_surrogate_pair() {
    let layr = layr_body(1, b"norm", Some("線画\u{1F3A8}"), 0, 0);
    let layer = parse_layer(&layr).unwrap();
    assert_eq!(layer.name(), "線画\u{1F3A8}");
}

#[test]
fn rejects_an_unpaired_surrogate_in_a_name() {
    let mut value = Vec::new();
    value.extend_from_slice(&1_u16.to_le_bytes());
    value.extend_from_slice(&0xd800_u16.to_le_bytes());
    assert_eq!(
        decode_name(&value),
        Err(ParseError::MalformedLayer { reason: "invalid UTF-16 layer name" })
    );
}

#[test]
fn rejects_a_truncated_name() {
    let mut value = Vec::new();
    value.extend_from_slice(&3_u16.to_le_bytes());
    value.extend_from_slice(&0x41_u16.to_le_bytes());
    assert_eq!(
        decode_name(&value),
        Err(ParseError::MalformedLayer { reason: "truncated UTF-16 layer name" })
    );
}

#[test]
fn rejects_a_short_layer_descriptor() {
    assert_eq!(
        parse_layer(&[0; 40]),
        Err(ParseError::MalformedLayer { reason: "invalid layr header" })
    );
}

#[test]
fn caps_opacity_at_one_hundred() {
    let mut layr = layr_body(1, b"norm", None, 0, 0);
    layr[48..52].copy_from_slice(&250_u32.to_le_bytes());
    assert_eq!(parse_layer(&layr).unwrap().opacity(), 100);
}

#[test]
fn a_hidden_layer_is_not_visible() {
    let mut layr = layr_body(1, b"norm", None, 0, 0);
    layr[52..56].copy_from_slice(&0_u32.to_le_bytes());
    assert!(!parse_layer(&layr).unwrap().visible());
}

#[test]
fn decodes_a_solid_block_with_full_14_bit_intensity() {
    // One solid block of premultiplied BGRA [0x0000, 0x3556, 0x4000, 0x4000].
    let mut row = Vec::new();
    row.extend_from_slice(&0x50ff_u16.to_le_bytes());
    for value in [0x0000_u16, 0x3556, 0x4000, 0x4000] {
        row.extend_from_slice(&value.to_le_bytes());
    }
    row.extend_from_slice(&0xf1ff_u16.to_le_bytes());
    let mut lpix = Vec::new();
    lpix.extend_from_slice(b"dpcm");
    lpix.extend_from_slice(&u32::try_from(row.len()).unwrap().to_le_bytes());
    lpix.extend_from_slice(&row);
    while lpix.len() % 4 != 0 {
        lpix.push(0);
    }
    let bytes = document(
        2,
        2,
        &[(b"layr", 5, layr_body(5, b"norm", None, 1, 1)), (b"lpix", 5, lpix)],
    );
    let layers = decode_layers(&bytes, DecodeLimits::default()).unwrap();
    let pixels = layers[0].image().unwrap().pixels();
    assert_eq!(pixels, &[255, 0xd5, 0, 255, 255, 0xd5, 0, 255, 255, 0xd5, 0, 255, 255, 0xd5, 0, 255]);
}

#[test]
fn a_transparent_run_leaves_pixels_clear() {
    let mut row = Vec::new();
    row.extend_from_slice(&0x00ff_u16.to_le_bytes());
    row.extend_from_slice(&1_u16.to_le_bytes()); // two blocks
    row.extend_from_slice(&0xf2ff_u16.to_le_bytes());
    let mut lpix = Vec::new();
    lpix.extend_from_slice(b"dpcm");
    lpix.extend_from_slice(&u32::try_from(row.len()).unwrap().to_le_bytes());
    lpix.extend_from_slice(&row);
    let bytes = document(
        4,
        4,
        &[(b"layr", 5, layr_body(5, b"norm", None, 2, 1)), (b"lpix", 5, lpix)],
    );
    let layers = decode_layers(&bytes, DecodeLimits::default()).unwrap();
    assert!(layers[0].image().unwrap().pixels().iter().all(|b| *b == 0));
}

#[test]
fn rejects_a_block_x_checksum_mismatch() {
    let mut row = Vec::new();
    row.extend_from_slice(&0x03ff_u16.to_le_bytes());
    row.extend_from_slice(&0_u16.to_le_bytes());
    let mut lpix = Vec::new();
    lpix.extend_from_slice(b"dpcm");
    lpix.extend_from_slice(&u32::try_from(row.len()).unwrap().to_le_bytes());
    lpix.extend_from_slice(&row);
    let bytes = document(
        4,
        4,
        &[(b"layr", 5, layr_body(5, b"norm", None, 1, 1)), (b"lpix", 5, lpix)],
    );
    assert_eq!(
        decode_layers(&bytes, DecodeLimits::default()),
        Err(ParseError::MalformedLayer { reason: "unexpected lpix block X checksum" })
    );
}

#[test]
fn a_row_without_terminator_is_rejected() {
    let mut row = Vec::new();
    row.extend_from_slice(&0x00ff_u16.to_le_bytes());
    row.extend_from_slice(&0_u16.to_le_bytes());
    let mut lpix = Vec::new();
    lpix.extend_from_slice(b"dpcm");
    lpix.extend_from_slice(&u32::try_from(row.len()).unwrap().to_le_bytes());
    lpix.extend_from_slice(&row);
    let bytes = document(
        4,
        4,
        &[(b"layr", 5, layr_body(5, b"norm", None, 1, 1)), (b"lpix", 5, lpix)],
    );
    assert_eq!(
        decode_layers(&bytes, DecodeLimits::default()),
        Err(ParseError::MalformedLayer { reason: "lpix row has no terminator" })
    );
}

#[test]
fn non_raster_layers_have_no_image() {
    let bytes = document(4, 4, &[(b"layr", 9, layr_body(9, b"fold", Some("Folder"), 0, 0))]);
    let layers = decode_layers(&bytes, DecodeLimits::default()).unwrap();
    assert_eq!(layers.len(), 1);
    assert!(layers[0].image().is_none());
    assert_eq!(layers[0].name(), "Folder");
    assert_eq!(layers[0].layer_type().as_bytes(), *b"fold");
}

#[test]
fn layer_decoding_enforces_the_pixel_limit() {
    let bytes = synthetic_layer_document();
    assert_eq!(
        decode_layers(&bytes, DecodeLimits { max_pixels: 100 }),
        Err(ParseError::ImageTooLarge { pixels: 1024, max_pixels: 100 })
    );
}

#[test]
fn unpremultiplies_and_scales_channels() {
    assert_eq!(unpremultiply(0x2000, 0x4000), 128);
    assert_eq!(unpremultiply(100, 0), 0);
    assert_eq!(unpremultiply(0x4000, 0x2000), 255);
    assert_eq!(scale_14_to_8(0x4000), 255);
    assert_eq!(scale_14_to_8(0x2000), 128);
    assert_eq!(scale_14_to_8(-5), 0);
    assert_eq!(scale_14_to_8(0x5000), 255);
}
