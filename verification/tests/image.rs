use sai2_parser::dpcm::decode_delta_row;
use sai2_parser::image::{OUTPUT_CHANNELS, TILE_SIZE};
use sai2_parser::{decode_integrated_image, DecodeLimits, ParseError, SAI2_MAGIC};

fn malformed(reason: &'static str) -> ParseError {
    ParseError::MalformedDpcm { reason }
}

#[test]
fn decodes_positive_negative_and_zero_deltas() {
    let compressed = encode_row(&[[1, -1, 2, -2, 0]]);
    let mut deltas = vec![0_i16; 5 * OUTPUT_CHANNELS];

    let consumed = decode_delta_row(&compressed, &mut deltas, 5, 1, OUTPUT_CHANNELS)
        .expect("row should decode");

    assert_eq!(consumed, compressed.len());
    assert_eq!(
        deltas
            .iter()
            .step_by(OUTPUT_CHANNELS)
            .copied()
            .collect::<Vec<_>>(),
        vec![1, -1, 2, -2, 0]
    );
}

#[test]
fn rejects_a_zero_run_beyond_the_row() {
    let mut writer = BitWriter::default();
    writer.write_opcode(15);
    writer.write_bits(1, 7); // run length 9 for an eight-pixel row
    let mut deltas = vec![0_i16; 8 * OUTPUT_CHANNELS];

    assert_eq!(
        decode_delta_row(&writer.finish(), &mut deltas, 8, 3, OUTPUT_CHANNELS),
        Err(malformed("zero run exceeds row width"))
    );
}

#[test]
fn decodes_a_synthetic_opaque_red_pixel() {
    let row = encode_row(&[[0], [0], [255]]);
    let document = synthetic_document(1, 1, 0x0100, &row);

    let image = decode_integrated_image(&document, DecodeLimits::default())
        .expect("synthetic integrated image should decode");

    assert_eq!(image.width(), 1);
    assert_eq!(image.height(), 1);
    assert_eq!(image.pixels(), &[255, 0, 0, 255]);
}

#[test]
fn decodes_a_synthetic_transparent_pixel() {
    let row = encode_row(&[[0], [0], [0], [0]]);
    let document = synthetic_document(1, 1, 0x2000, &row);

    let image = decode_integrated_image(&document, DecodeLimits::default())
        .expect("synthetic integrated image should decode");

    assert_eq!(image.pixels(), &[0, 0, 0, 0]);
}

#[test]
fn enforces_the_pixel_limit_before_output_allocation() {
    let row = encode_row(&[[0], [0], [0]]);
    let document = synthetic_document(1, 1, 0x0100, &row);

    assert_eq!(
        decode_integrated_image(&document, DecodeLimits { max_pixels: 0 }),
        Err(ParseError::ImageTooLarge {
            pixels: 1,
            max_pixels: 0,
        })
    );
}

#[test]
fn rejects_an_unexpected_tile_marker() {
    let row = encode_row(&[[0], [0], [0]]);
    let mut document = synthetic_document(1, 1, 0x0100, &row);
    document[88..90].copy_from_slice(&0_u16.to_le_bytes());

    assert_eq!(
        decode_integrated_image(&document, DecodeLimits::default()),
        Err(malformed("unexpected tile marker"))
    );
}

#[test]
fn decodes_four_tiles_with_partial_right_and_bottom_edges() {
    let document = synthetic_tiled_blank(257, 257);

    let image = decode_integrated_image(&document, DecodeLimits::default())
        .expect("four-tile image should decode");

    assert_eq!(image.width(), 257);
    assert_eq!(image.height(), 257);
    assert_eq!(image.pixels().len(), 257 * 257 * OUTPUT_CHANNELS);
    assert!(image.pixels().iter().all(|byte| *byte == 0));
}

#[test]
fn predicts_from_the_row_above() {
    // Two rows of one pixel: the second row's zero deltas repeat the first.
    let row0 = encode_row(&[[10], [20], [30]]);
    let row1 = encode_row(&[[0], [0], [0]]);
    let mut rows = row0.clone();
    rows.extend_from_slice(&row1);
    let document = synthetic_document(1, 2, 0x0100, &rows);

    let image = decode_integrated_image(&document, DecodeLimits::default()).unwrap();

    assert_eq!(image.pixels(), &[30, 20, 10, 255, 30, 20, 10, 255]);
}

#[test]
fn accumulates_deltas_along_a_row() {
    let row = encode_row(&[[5, 5, -3], [0, 0, 0], [0, 0, 0]]);
    let document = synthetic_document(3, 1, 0x0100, &row);

    let image = decode_integrated_image(&document, DecodeLimits::default()).unwrap();

    assert_eq!(
        image.pixels(),
        &[0, 0, 5, 255, 0, 0, 10, 255, 0, 0, 7, 255]
    );
}

#[test]
fn reports_a_missing_integrated_image() {
    let row = encode_row(&[[0], [0], [0]]);
    let mut document = synthetic_document(1, 1, 0x0100, &row);
    document[64..68].copy_from_slice(b"hist");

    assert_eq!(
        decode_integrated_image(&document, DecodeLimits::default()),
        Err(ParseError::MissingIntegratedImage)
    );
}

#[test]
fn reports_zero_dimensions() {
    let row = encode_row(&[[0], [0], [0]]);
    let document = synthetic_document(0, 1, 0x0100, &row);

    assert_eq!(
        decode_integrated_image(&document, DecodeLimits::default()),
        Err(ParseError::InvalidImageDimensions { width: 0, height: 1 })
    );
}

#[test]
fn reports_an_unsupported_encoding() {
    let row = encode_row(&[[0], [0], [0]]);
    let mut document = synthetic_document(1, 1, 0x0100, &row);
    document[80..84].copy_from_slice(b"rawx");

    assert_eq!(
        decode_integrated_image(&document, DecodeLimits::default()),
        Err(ParseError::UnsupportedIntegratedImage { found: *b"rawx" })
    );
}

#[test]
fn rejects_nonzero_padding() {
    let row = encode_row(&[[0], [0], [0]]);
    let mut document = synthetic_document(1, 1, 0x0100, &row);
    let last = document.len() - 1;
    document[last] = 1;

    assert_eq!(
        decode_integrated_image(&document, DecodeLimits::default()),
        Err(malformed("invalid chunk padding"))
    );
}

#[test]
fn rejects_an_eight_zero_opcode() {
    let mut deltas = vec![0_i16; 4];
    assert_eq!(
        decode_delta_row(&[0, 0], &mut deltas, 1, 1, 4),
        Err(malformed("RLE opcode exceeds 15"))
    );
}

#[test]
fn rejects_a_truncated_bitstream() {
    let mut deltas = vec![0_i16; 4];
    assert_eq!(
        decode_delta_row(&[], &mut deltas, 1, 1, 4),
        Err(malformed("truncated RLE bitstream"))
    );
}

#[test]
fn rejects_an_inconsistent_row_buffer() {
    let mut deltas = vec![0_i16; 3];
    assert_eq!(
        decode_delta_row(&[0xff], &mut deltas, 1, 1, 4),
        Err(malformed("invalid row buffer or channel count"))
    );
}

#[test]
fn a_zero_run_leaves_earlier_deltas_untouched() {
    let mut writer = BitWriter::default();
    writer.write_opcode(15);
    writer.write_bits(0, 7); // run of eight pixels
    let mut deltas = vec![7_i16; 8];
    let consumed = decode_delta_row(&writer.finish(), &mut deltas, 8, 1, 1).unwrap();
    assert_eq!(consumed, 2);
    assert_eq!(deltas, vec![7_i16; 8]);
}

fn synthetic_document(width: u32, height: u32, flags: u32, row: &[u8]) -> Vec<u8> {
    let mut body = Vec::new();
    body.extend_from_slice(b"dpcm");
    let tile_size = u32::try_from(2 + row.len()).expect("test row should fit");
    body.extend_from_slice(&tile_size.to_le_bytes());
    body.extend_from_slice(&0x00ff_u16.to_le_bytes());
    body.extend_from_slice(row);
    body.extend_from_slice(&0x01ff_u16.to_le_bytes());
    while body.len() % 4 != 0 {
        body.push(0);
    }

    wrap_integrated_body(width, height, flags, &body)
}

fn synthetic_tiled_blank(width: u32, height: u32) -> Vec<u8> {
    let width_usize = usize::try_from(width).expect("test width should fit");
    let height_usize = usize::try_from(height).expect("test height should fit");
    let tiles_x = width_usize.div_ceil(TILE_SIZE);
    let tiles_y = height_usize.div_ceil(TILE_SIZE);
    let mut tiles = Vec::new();

    for tile_y in 0..tiles_y {
        let tile_height = (height_usize - tile_y * TILE_SIZE).min(TILE_SIZE);
        for tile_x in 0..tiles_x {
            let tile_width = (width_usize - tile_x * TILE_SIZE).min(TILE_SIZE);
            let mut tile = Vec::new();
            let marker = (u16::try_from(tile_x).expect("test tile index should fit") << 8) | 0x00ff;
            tile.extend_from_slice(&marker.to_le_bytes());
            let row = encode_zero_row(tile_width, 4);
            for _ in 0..tile_height {
                tile.extend_from_slice(&row);
            }
            tiles.push(tile);
        }
    }

    let mut body = Vec::new();
    body.extend_from_slice(b"dpcm");
    for tile in &tiles {
        let size = u32::try_from(tile.len()).expect("test tile should fit");
        body.extend_from_slice(&size.to_le_bytes());
    }
    for tile_y in 0..tiles_y {
        for tile_x in 0..tiles_x {
            body.extend_from_slice(&tiles[tile_y * tiles_x + tile_x]);
        }
        let marker = (u16::try_from(tiles_x).expect("test tile count should fit") << 8) | 0x00ff;
        body.extend_from_slice(&marker.to_le_bytes());
    }
    while body.len() % 4 != 0 {
        body.push(0);
    }

    wrap_integrated_body(width, height, 0x2000, &body)
}

fn wrap_integrated_body(width: u32, height: u32, flags: u32, body: &[u8]) -> Vec<u8> {
    let mut document = vec![0_u8; 80];
    document[0..16].copy_from_slice(&SAI2_MAGIC);
    document[16..20].copy_from_slice(&flags.to_le_bytes());
    document[20..24].copy_from_slice(&width.to_le_bytes());
    document[24..28].copy_from_slice(&height.to_le_bytes());
    document[32..36].copy_from_slice(&1_u32.to_le_bytes());
    document[60..64].copy_from_slice(b"norm");
    document[64..68].copy_from_slice(b"intg");
    document[72..80].copy_from_slice(&80_u64.to_le_bytes());
    document.extend_from_slice(body);
    document
}

fn encode_zero_row(pixel_count: usize, channels: usize) -> Vec<u8> {
    let mut writer = BitWriter::default();
    for _ in 0..channels {
        for _ in 0..pixel_count {
            writer.write_opcode(0);
        }
    }
    writer.finish()
}

fn encode_row<const CHANNELS: usize, const PIXELS: usize>(
    channels: &[[i16; PIXELS]; CHANNELS],
) -> Vec<u8> {
    let mut writer = BitWriter::default();
    for channel in channels {
        for value in channel {
            writer.write_value(*value);
        }
    }
    writer.finish()
}

#[derive(Default)]
struct BitWriter {
    bytes: Vec<u8>,
    bit_offset: usize,
}

impl BitWriter {
    fn write_value(&mut self, value: i16) {
        if value == 0 {
            self.write_opcode(0);
            return;
        }

        let magnitude = u32::from(value.unsigned_abs());
        let opcode = (magnitude + 1).ilog2();
        self.write_opcode(usize::try_from(opcode).expect("opcode should fit"));
        let leading = 1_u32 << opcode;
        self.write_bits(
            magnitude + 1 - leading,
            usize::try_from(opcode).expect("opcode should fit"),
        );
        self.write_bits(u32::from(u8::from(value.is_negative())), 1);
    }

    fn write_opcode(&mut self, opcode: usize) {
        let zero_prefix = opcode / 2;
        self.write_bits(0, zero_prefix);
        self.write_bits(1, 1);
        self.write_bits(u32::try_from(opcode % 2).expect("opcode bit should fit"), 1);
    }

    fn write_bits(&mut self, value: u32, count: usize) {
        for shift in 0..count {
            if self.bit_offset / 8 == self.bytes.len() {
                self.bytes.push(0);
            }
            let bit = u8::try_from((value >> shift) & 1).expect("bit should fit");
            self.bytes[self.bit_offset / 8] |= bit << (self.bit_offset % 8);
            self.bit_offset += 1;
        }
    }

    fn finish(self) -> Vec<u8> {
        self.bytes
    }
}
