use clipboard_history::{
    ansi_text, decode_dib, encode_clipboard_dib, image_file_name, parse_dib_header, wide_text,
    CaptureError, HEADER_LEN,
};

/// A bitmap with the given header fields; pixel (row r, column c) of stored
/// row r has blue = 10*r + c, green = 100 + blue, red = 200 + blue.
fn dib(width: i32, height: i32, bits: u16) -> Vec<u8> {
    let mut d = vec![0u8; HEADER_LEN];
    d[0..4].copy_from_slice(&40u32.to_le_bytes());
    d[4..8].copy_from_slice(&width.to_le_bytes());
    d[8..12].copy_from_slice(&height.to_le_bytes());
    d[12..14].copy_from_slice(&1u16.to_le_bytes());
    d[14..16].copy_from_slice(&bits.to_le_bytes());
    let bpp = (bits / 8) as usize;
    let stride = ((width as usize * bits as usize + 31) / 32) * 4;
    for r in 0..height.unsigned_abs() as usize {
        let mut row = vec![0u8; stride];
        for c in 0..width as usize {
            let b = (10 * r + c) as u8;
            row[c * bpp] = b;
            row[c * bpp + 1] = 100 + b;
            row[c * bpp + 2] = 200 + b;
        }
        d.extend_from_slice(&row);
    }
    d
}

#[test]
fn header_fields_are_read_little_endian() {
    let h = parse_dib_header(&dib(3, -2, 24)).unwrap();
    assert_eq!((h.width, h.height, h.bit_count), (3, -2, 24));
    assert!(parse_dib_header(&vec![0u8; 39]).is_none());
}

#[test]
fn positive_height_flips_rows() {
    let img = decode_dib(&dib(3, 2, 24)).unwrap();
    assert_eq!((img.width, img.height), (3, 2));
    assert_eq!(img.rgba.len(), 3 * 2 * 4);
    // output row 0 is stored row 1
    assert_eq!(&img.rgba[0..4], &[210, 110, 10, 255]);
    assert_eq!(&img.rgba[8..12], &[212, 112, 12, 255]);
    // output row 1 is stored row 0
    assert_eq!(&img.rgba[12..16], &[200, 100, 0, 255]);
}

#[test]
fn negative_height_keeps_row_order() {
    let img = decode_dib(&dib(3, -2, 24)).unwrap();
    assert_eq!((img.width, img.height), (3, 2));
    assert_eq!(&img.rgba[0..4], &[200, 100, 0, 255]);
    assert_eq!(&img.rgba[12..16], &[210, 110, 10, 255]);
}

#[test]
fn thirty_two_bit_pixels_use_four_byte_steps() {
    let img = decode_dib(&dib(2, 1, 32)).unwrap();
    assert_eq!(img.rgba, vec![200, 100, 0, 255, 201, 101, 1, 255]);
}

#[test]
fn row_padding_is_skipped() {
    // width 1 at 24 bits: 3 bytes of pixel, 1 byte of padding per row
    let img = decode_dib(&dib(1, 3, 24)).unwrap();
    assert_eq!(img.rgba, vec![220, 120, 20, 255, 210, 110, 10, 255, 200, 100, 0, 255]);
}

#[test]
fn short_data_is_an_access_error() {
    assert_eq!(decode_dib(&vec![1u8; 10]).err(), Some(CaptureError::ClipboardAccess));
}

#[test]
fn unsupported_depth_is_unavailable() {
    assert_eq!(decode_dib(&dib(2, 2, 8)).err(), Some(CaptureError::FormatUnavailable));
    assert_eq!(decode_dib(&dib(0, 2, 24)).err(), Some(CaptureError::FormatUnavailable));
}

#[test]
fn truncated_pixels_are_an_encode_error() {
    let mut d = dib(4, 4, 24);
    d.truncate(d.len() - 1);
    assert_eq!(decode_dib(&d).err(), Some(CaptureError::Encode));
}

#[test]
fn bitmap_becomes_png_bytes() {
    let png = encode_clipboard_dib(&dib(3, 2, 24)).unwrap();
    assert_eq!(&png[0..8], &[0x89, b'P', b'N', b'G', 0x0d, 0x0a, 0x1a, 0x0a]);
    assert_eq!(&png[16..24], &[0, 0, 0, 3, 0, 0, 0, 2]);
    assert_eq!(encode_clipboard_dib(&dib(1, 1, 8)).err(), Some(CaptureError::FormatUnavailable));
    let mut short = dib(2, 2, 24);
    short.pop();
    assert_eq!(encode_clipboard_dib(&short).err(), Some(CaptureError::Encode));
}

#[test]
fn image_file_name_uses_timestamp() {
    assert_eq!(image_file_name(1700000000), "clipboard_1700000000.png");
    assert_eq!(image_file_name(0), "clipboard_0.png");
}

#[test]
fn wide_text_stops_at_nul() {
    let units: Vec<u16> = "héllo\0junk".encode_utf16().collect();
    assert_eq!(wide_text(&units), "héllo");
    let whole: Vec<u16> = "abc".encode_utf16().collect();
    assert_eq!(wide_text(&whole), "abc");
    assert_eq!(wide_text(&vec![0xD800, 0x41]), "\u{FFFD}A");
    assert_eq!(wide_text(&vec![]), "");
}

#[test]
fn ansi_text_stops_at_nul() {
    assert_eq!(ansi_text(&b"plain\0rest".to_vec()), "plain");
    assert_eq!(ansi_text(&vec![0x61, 0xff]), "a\u{FFFD}");
    assert_eq!(ansi_text(&vec![0]), "");
}
