use sai2_parser::png::{write_rgba, Adler32, Crc32};

const PNG_SIGNATURE: &[u8; 8] = b"\x89PNG\r\n\x1a\n";

fn be32(bytes: &[u8]) -> u32 {
    u32::from_be_bytes(bytes.try_into().unwrap())
}

/// Splits a PNG stream into its chunks, checking every CRC on the way.
fn chunks(png: &[u8]) -> Vec<([u8; 4], Vec<u8>)> {
    assert_eq!(&png[..8], PNG_SIGNATURE);
    let mut out = Vec::new();
    let mut at = 8;
    while at < png.len() {
        let len = be32(&png[at..at + 4]) as usize;
        let kind: [u8; 4] = png[at + 4..at + 8].try_into().unwrap();
        let data = png[at + 8..at + 8 + len].to_vec();
        let mut crc = Crc32::new();
        crc.update(&png[at + 4..at + 8 + len]);
        assert_eq!(be32(&png[at + 8 + len..at + 12 + len]), crc.finish());
        out.push((kind, data));
        at += 12 + len;
    }
    assert_eq!(at, png.len());
    out
}

/// Reassembles the payload of a zlib stream made of stored blocks.
fn inflate_stored(zlib: &[u8]) -> Vec<u8> {
    assert_eq!(&zlib[..2], &[0x78, 0x01]);
    let mut out = Vec::new();
    let mut at = 2;
    loop {
        let last = zlib[at];
        let len = u16::from_le_bytes([zlib[at + 1], zlib[at + 2]]);
        let nlen = u16::from_le_bytes([zlib[at + 3], zlib[at + 4]]);
        assert_eq!(nlen, !len);
        out.extend_from_slice(&zlib[at + 5..at + 5 + len as usize]);
        at += 5 + len as usize;
        if last == 1 {
            break;
        }
        assert_eq!(last, 0);
    }
    let mut adler = Adler32::new();
    adler.update(&out);
    assert_eq!(be32(&zlib[at..at + 4]), adler.finish());
    assert_eq!(at + 4, zlib.len());
    out
}

#[test]
fn encodes_a_minimal_rgba_png() {
    let mut png = Vec::new();
    write_rgba(&mut png, 1, 1, &[255, 0, 0, 255]).expect("PNG should encode");

    assert_eq!(&png[..8], PNG_SIGNATURE);
    assert_eq!(&png[12..16], b"IHDR");
    assert_eq!(u32::from_be_bytes(png[16..20].try_into().unwrap()), 1);
    assert_eq!(u32::from_be_bytes(png[20..24].try_into().unwrap()), 1);
    assert_eq!(&png[png.len() - 8..png.len() - 4], b"IEND");
}

#[test]
fn writes_multiple_stored_blocks() {
    let pixels = vec![0_u8; 256 * 256 * 4];
    let mut png = Vec::new();

    write_rgba(&mut png, 256, 256, &pixels).expect("large PNG should encode");

    assert_eq!(&png[..8], PNG_SIGNATURE);
    assert!(png.len() > pixels.len());
}

#[test]
fn rejects_an_incorrect_pixel_length() {
    let mut png = Vec::new();
    assert_eq!(
        write_rgba(&mut png, 1, 1, &[0, 0, 0]),
        Err("PNG pixel length mismatch: expected 4, found 3".to_owned())
    );
}

#[test]
fn minimal_png_is_byte_exact() {
    let mut png = Vec::new();
    write_rgba(&mut png, 1, 1, &[255, 0, 0, 255]).unwrap();
    let expected: Vec<u8> = vec![
        137, 80, 78, 71, 13, 10, 26, 10, 0, 0, 0, 13, 73, 72, 68, 82, 0, 0, 0, 1, 0, 0, 0, 1, 8,
        6, 0, 0, 0, 31, 21, 196, 137, 0, 0, 0, 16, 73, 68, 65, 84, 120, 1, 1, 5, 0, 250, 255, 0,
        255, 0, 0, 255, 5, 0, 1, 255, 250, 92, 136, 209, 0, 0, 0, 0, 73, 69, 78, 68, 174, 66, 96,
        130,
    ];
    assert_eq!(png, expected);
}

#[test]
fn appends_to_existing_output() {
    let mut png = vec![1, 2, 3];
    write_rgba(&mut png, 1, 1, &[255, 0, 0, 255]).unwrap();
    assert_eq!(&png[..3], &[1, 2, 3]);
    assert_eq!(&png[3..11], PNG_SIGNATURE);
    assert_eq!(png.len(), 3 + 73);
}

#[test]
fn large_image_round_trips_through_stored_blocks() {
    let (width, height) = (256_usize, 256_usize);
    let pixels: Vec<u8> = (0..width * height * 4).map(|i| (i * 7 % 251) as u8).collect();
    let mut png = Vec::new();
    write_rgba(&mut png, width as u32, height as u32, &pixels).unwrap();

    let chunks = chunks(&png);
    assert_eq!(chunks.len(), 3);
    assert_eq!(&chunks[0].0, b"IHDR");
    assert_eq!(chunks[0].1, [0, 0, 1, 0, 0, 0, 1, 0, 8, 6, 0, 0, 0]);
    assert_eq!(&chunks[1].0, b"IDAT");
    assert_eq!(&chunks[2].0, b"IEND");
    assert!(chunks[2].1.is_empty());

    // 256 rows of 1025 scanline bytes need five stored blocks.
    let raw_len = height * (width * 4 + 1);
    assert_eq!(chunks[1].1.len(), raw_len + 5 * 5 + 6);

    let raw = inflate_stored(&chunks[1].1);
    assert_eq!(raw.len(), raw_len);
    for row in 0..height {
        let line = &raw[row * (width * 4 + 1)..(row + 1) * (width * 4 + 1)];
        assert_eq!(line[0], 0);
        assert_eq!(&line[1..], &pixels[row * width * 4..(row + 1) * width * 4]);
    }
}

#[test]
fn exact_multiple_of_the_block_size_ends_on_a_full_block() {
    // Three rows of 21845 scanline bytes fill exactly one stored block.
    let (width, height) = (5461_usize, 3_usize);
    assert_eq!(height * (width * 4 + 1), 65535);
    let pixels = vec![9_u8; width * height * 4];
    let mut png = Vec::new();
    write_rgba(&mut png, width as u32, height as u32, &pixels).unwrap();
    let chunks = chunks(&png);
    let idat = &chunks[1].1;
    assert_eq!(idat.len(), 65535 + 5 + 6);
    assert_eq!(idat[2], 1);
    assert_eq!(inflate_stored(idat).len(), 65535);
}

#[test]
fn rejects_zero_dimensions_without_writing() {
    let mut png = Vec::new();
    assert_eq!(
        write_rgba(&mut png, 0, 1, &[]),
        Err("PNG dimensions must be nonzero".to_owned())
    );
    assert_eq!(
        write_rgba(&mut png, 1, 0, &[]),
        Err("PNG dimensions must be nonzero".to_owned())
    );
    assert!(png.is_empty());
}

#[test]
fn reports_a_long_pixel_buffer() {
    let mut png = Vec::new();
    assert_eq!(
        write_rgba(&mut png, 2, 3, &[0; 25]),
        Err("PNG pixel length mismatch: expected 24, found 25".to_owned())
    );
    assert!(png.is_empty());
}

#[test]
fn checksums_match_known_values() {
    let mut crc = Crc32::new();
    crc.update(b"IEND");
    assert_eq!(crc.finish(), 0xae42_6082);

    let mut adler = Adler32::new();
    adler.update(b"Wiki");
    adler.update(b"pedia");
    assert_eq!(adler.finish(), 0x11e6_0398);

    assert_eq!(Adler32::new().finish(), 1);
    assert_eq!(Crc32::new().finish(), 0);
}
