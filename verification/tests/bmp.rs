use diskscope::bmp::encode_rgba;

#[test]
fn header_and_payload_are_the_right_size() {
    // 3 px wide: 9 bytes of pixel data padded to 12 per row.
    let bytes = encode_rgba(3, 2, &[0u8; 3 * 2 * 4]);
    assert_eq!(&bytes[0..2], b"BM");
    assert_eq!(bytes.len(), 54 + 12 * 2);
    assert_eq!(
        u32::from_le_bytes(bytes[2..6].try_into().unwrap()) as usize,
        bytes.len()
    );
}

#[test]
fn pixels_are_written_bottom_up_as_bgr() {
    // One red pixel on the top row, one blue on the bottom.
    let rgba = [255, 0, 0, 255, 0, 0, 255, 255];
    let bytes = encode_rgba(1, 2, &rgba);
    // First row in the file is the image's last row: blue, as BGR.
    assert_eq!(&bytes[54..57], &[255, 0, 0]);
    assert_eq!(&bytes[58..61], &[0, 0, 255]);
}

#[test]
fn the_header_describes_an_uncompressed_image() {
    let bytes = encode_rgba(2, 3, &[7u8; 2 * 3 * 4]);
    let word = |at: usize| u32::from_le_bytes(bytes[at..at + 4].try_into().unwrap());
    assert_eq!(word(10), 54);
    assert_eq!(word(14), 40);
    assert_eq!(word(18), 2);
    assert_eq!(word(22), 3);
    assert_eq!(&bytes[26..30], &[1, 0, 24, 0]);
    assert_eq!(word(30), 0);
    assert_eq!(word(34), 8 * 3);
    assert_eq!(&bytes[38..54], &[0u8; 16]);
    // Two bytes of padding end each row.
    assert_eq!(&bytes[60..62], &[0, 0]);
}

#[test]
fn an_image_without_rows_is_a_header() {
    assert_eq!(encode_rgba(5, 0, &[]).len(), 54);
}
