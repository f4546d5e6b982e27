use bmp_rust::bmp::BMP;
use bmp_rust::errors::ErrorKind;
use bmp_rust::header::{Compression, Intent};

#[test]
fn hex_encoding_of_color() {
    assert_eq!(BMP::rgba_to_hex([45, 77, 0, 255]), "2D4D00FF");
}

#[test]
fn hex_decoding_of_color() {
    assert_eq!(BMP::hex_to_rgba(String::from("F7BA9E11")), [247, 186, 158, 17]);
}

#[test]
fn hex_round_trip() {
    let c = [12, 250, 128, 3];
    assert_eq!(BMP::hex_to_rgba(BMP::rgba_to_hex(c)), c);
}

#[test]
fn fresh_image_header_offset() {
    let img = BMP::new(125, 125, None);
    let header = img.get_header();
    assert_eq!(header.bfOffBits, 138);
    assert_eq!(header.bfType, vec![0x42, 0x4D]);
}

#[test]
fn fresh_image_buffer_length() {
    // A 3-row, 5-column 32-bit image: 138 header bytes plus 4 bytes per
    // pixel, each row already 4-byte aligned.
    let img = BMP::new(3, 5, None);
    assert_eq!(img.get_size(false), 138 + 4 * 15);
    assert_eq!(img.get_size(true), 138 + 4 * 15);
}

#[test]
fn fresh_image_is_not_from_file() {
    let img = BMP::new(2, 2, None);
    assert!(!img.is_from_file());
}

#[test]
fn dib_header_round_trip_v5() {
    let img = BMP::new(4, 6, Some([9, 8, 7, 255]));
    let dib = img.get_dib_header().unwrap();
    assert_eq!(dib.size, 124);
    assert_eq!(dib.width, 6);
    assert_eq!(dib.height, 4);
    assert_eq!(dib.bitcount, 32);
    assert_eq!(dib.compression, Some(Compression::BiBitfields));
    assert_eq!(dib.Intent, Some(Intent::LcsGmImages));
    let bytes = dib.to_bytes();
    assert_eq!(bytes.len(), 124);
    assert_eq!(&img.contents[14..138], &bytes[..]);
}

#[test]
fn file_header_round_trip() {
    let img = BMP::new(4, 6, None);
    let header = img.get_header();
    let bytes = header.to_bytes();
    assert_eq!(&img.contents[..14], &bytes[..]);
}

#[test]
fn dib_header_round_trip_core_12() {
    // A hand-built 12-byte core header: size 12, width 3, height -2,
    // 1 plane, 24 bits per pixel, followed by two 12-byte rows.
    let mut buf: Vec<u8> = Vec::new();
    buf.extend_from_slice(&[0x42, 0x4D]); // "BM"
    buf.extend_from_slice(&50u32.to_le_bytes());
    buf.extend_from_slice(&[0, 0, 0, 0]);
    buf.extend_from_slice(&26u32.to_le_bytes());
    buf.extend_from_slice(&12u32.to_le_bytes());
    buf.extend_from_slice(&3u16.to_le_bytes());
    buf.extend_from_slice(&(-2i16).to_le_bytes());
    buf.extend_from_slice(&1u16.to_le_bytes());
    buf.extend_from_slice(&24u16.to_le_bytes());
    buf.extend_from_slice(&[0u8; 24]);
    let img = BMP { contents: buf, from_file: true };
    let dib = img.get_dib_header().unwrap();
    assert_eq!(dib.size, 12);
    assert_eq!(dib.width, 3);
    assert_eq!(dib.height, -2);
    assert_eq!(dib.bitcount, 24);
    assert!(dib.compression.is_none());
    let bytes = dib.to_bytes();
    assert_eq!(bytes.len(), 12);
    assert_eq!(&img.contents[14..26], &bytes[..]);
}

#[test]
fn dib_header_round_trip_info_40() {
    let mut buf: Vec<u8> = Vec::new();
    buf.extend_from_slice(&[0x42, 0x4D]);
    buf.extend_from_slice(&70u32.to_le_bytes());
    buf.extend_from_slice(&[0, 0, 0, 0]);
    buf.extend_from_slice(&54u32.to_le_bytes());
    buf.extend_from_slice(&40u32.to_le_bytes());
    buf.extend_from_slice(&2u32.to_le_bytes()); // width
    buf.extend_from_slice(&2i32.to_le_bytes()); // height
    buf.extend_from_slice(&1u16.to_le_bytes());
    buf.extend_from_slice(&24u16.to_le_bytes());
    buf.extend_from_slice(&0u32.to_le_bytes()); // BI_RGB
    buf.extend_from_slice(&16u32.to_le_bytes());
    buf.extend_from_slice(&2835u32.to_le_bytes());
    buf.extend_from_slice(&2835u32.to_le_bytes());
    buf.extend_from_slice(&0u32.to_le_bytes());
    buf.extend_from_slice(&0u32.to_le_bytes());
    buf.extend_from_slice(&[0u8; 16]); // two 8-byte pixel rows
    let img = BMP { contents: buf, from_file: true };
    let dib = img.get_dib_header().unwrap();
    assert_eq!(dib.size, 40);
    assert_eq!(dib.compression, Some(Compression::BiRgb));
    let bytes = dib.to_bytes();
    assert_eq!(bytes.len(), 40);
    assert_eq!(&img.contents[14..54], &bytes[..]);
}

#[test]
fn unknown_dib_size_is_unsupported() {
    let mut buf: Vec<u8> = vec![0x42, 0x4D];
    buf.extend_from_slice(&[0u8; 12]);
    buf.extend_from_slice(&64u32.to_le_bytes()); // no such layout
    buf.extend_from_slice(&[0u8; 60]);
    let img = BMP { contents: buf, from_file: true };
    assert!(matches!(img.get_dib_header(), Err(ErrorKind::Unsupported)));
}

#[test]
fn short_buffer_is_unsupported() {
    let img = BMP { contents: vec![0x42, 0x4D, 0, 0], from_file: true };
    assert!(matches!(img.get_dib_header(), Err(ErrorKind::Unsupported)));
}

#[test]
fn byte_conversions() {
    assert_eq!(BMP::bytes_to_int([1, 0, 0, 0]), 1);
    assert_eq!(BMP::bytes_to_int([0, 0, 0, 1]), 16777216);
    assert_eq!(BMP::two_bytes_to_int([0x34, 0x12]), 0x1234);
    assert_eq!(BMP::byte_to_int(77), 77);
    assert_eq!(BMP::two_bytes_to_signed_int([0xFF, 0xFF]), -1);
    assert_eq!(BMP::bytes_to_signed_int([0xFE, 0xFF, 0xFF, 0xFF]), -2);
}

#[test]
fn kilobyte_conversion() {
    assert_eq!(BMP::num_bytes_to_kilobytes(2048), 2);
    assert_eq!(BMP::num_bytes_to_kilobytes(1023), 0);
}

#[test]
fn compression_code_round_trip() {
    for code in 0..=6u32 {
        let c = BMP::int_to_compression(code).unwrap();
        assert_eq!(BMP::compression_to_int(c), code);
    }
    assert!(BMP::int_to_compression(7).is_none());
}

#[test]
fn intent_code_round_trip() {
    for code in 0..=4u32 {
        let t = BMP::int_to_intent(code).unwrap();
        assert_eq!(BMP::intent_to_int(t), code);
    }
    assert!(BMP::int_to_intent(5).is_none());
}

#[test]
fn error_kind_messages() {
    assert_eq!(ErrorKind::Unsupported.as_str(), "File is unsupported");
    assert_eq!(ErrorKind::DoesNotExist.as_str(), "Requested object does not exist");
    assert_eq!(ErrorKind::WrongFileType.as_str(), "Wrong file type. Must be a .bmp file");
    assert_eq!(ErrorKind::UseExtraBitMasks.as_str(), "Use extra bit masks instead");
    assert_eq!(ErrorKind::FailedToWrite.as_str(), "Failed to write to file");
    assert_eq!(
        ErrorKind::RadiusInvalid.as_str(),
        "Blur/filter radius is invalid since bigger than 16 or is 0"
    );
    assert_eq!(ErrorKind::Missing.as_str(), "Missing expected parameter or object");
}

#[test]
fn format_of_fresh_image() {
    let img = BMP::new(2, 2, None);
    assert_eq!(img.get_format(), "bgra");
}

#[test]
fn color_table_of_fresh_image_is_masked() {
    let img = BMP::new(2, 2, None);
    assert!(matches!(img.get_color_table(), Err(ErrorKind::UseExtraBitMasks)));
}

#[test]
fn extra_bit_masks_only_on_info_headers() {
    let img = BMP::new(2, 2, None);
    assert!(matches!(img.get_extra_bit_masks(), Err(ErrorKind::DoesNotExist)));
}

#[test]
fn array_padding_utilities() {
    assert_eq!(BMP::vec_to_4u8_array(vec![1, 2]), [1, 2, 0, 0]);
    assert_eq!(BMP::vec_to_2u8_array(vec![9]), [9, 0]);
    assert_eq!(BMP::vec_to_1u8_array(vec![]), [0]);
}

#[test]
fn header_bytes_are_the_prefix() {
    let img = BMP::new(2, 2, None);
    assert_eq!(img.get_header_bytes(), img.contents[..14].to_vec());
}

#[test]
fn twentyfour_bit_rows_are_padded_to_four_bytes() {
    // A 2x2 24-bit image: 6 pixel bytes per row padded to an 8-byte
    // stride.  Pixel (0,0) is stored in the last row (bottom-up) as BGR.
    let mut buf: Vec<u8> = Vec::new();
    buf.extend_from_slice(&[0x42, 0x4D]);
    buf.extend_from_slice(&70u32.to_le_bytes());
    buf.extend_from_slice(&[0, 0, 0, 0]);
    buf.extend_from_slice(&54u32.to_le_bytes());
    buf.extend_from_slice(&40u32.to_le_bytes());
    buf.extend_from_slice(&2u32.to_le_bytes());
    buf.extend_from_slice(&2i32.to_le_bytes());
    buf.extend_from_slice(&1u16.to_le_bytes());
    buf.extend_from_slice(&24u16.to_le_bytes());
    buf.extend_from_slice(&0u32.to_le_bytes());
    buf.extend_from_slice(&16u32.to_le_bytes());
    buf.extend_from_slice(&2835u32.to_le_bytes());
    buf.extend_from_slice(&2835u32.to_le_bytes());
    buf.extend_from_slice(&0u32.to_le_bytes());
    buf.extend_from_slice(&0u32.to_le_bytes());
    // Bottom row on disk = visual row 1: pixels (0,1) and (1,1).
    buf.extend_from_slice(&[10, 20, 30, 40, 50, 60, 0, 0]);
    // Top row on disk last = visual row 0.
    buf.extend_from_slice(&[1, 2, 3, 4, 5, 6, 0, 0]);
    let img = BMP { contents: buf, from_file: true };
    assert_eq!(img.get_size(false), 70);
    // 24-bit storage is BGR with alpha forced opaque.
    assert_eq!(img.get_color_of_px(0, 0).unwrap(), [3, 2, 1, 255]);
    assert_eq!(img.get_color_of_px(1, 0).unwrap(), [6, 5, 4, 255]);
    assert_eq!(img.get_color_of_px(0, 1).unwrap(), [30, 20, 10, 255]);
    assert_eq!(img.get_color_of_px(1, 1).unwrap(), [60, 50, 40, 255]);
    assert_eq!(img.get_format(), "bgr");
}

#[test]
fn efficient_variants_match_the_plain_ones() {
    let mut img = BMP::new(3, 3, Some([8, 8, 8, 255]));
    let dib = img.get_dib_header().unwrap();
    let header = img.get_header();
    img.change_color_of_pixel_efficient(2, 1, [7, 6, 5, 255], &dib, &header).unwrap();
    let plane = img.get_pixel_data().unwrap();
    let dib2 = img.get_dib_header().unwrap();
    assert_eq!(
        img.get_color_of_pixel_efficient(2, 1, &dib2, &plane).unwrap(),
        img.get_color_of_pixel(2, 1).unwrap()
    );
    assert_eq!(img.get_color_of_px_efficient(2, 1, &dib2, &plane).unwrap(), [7, 6, 5, 255]);
}

#[test]
fn pixel_plane_shape() {
    let img = BMP::new(2, 3, None);
    let plane = img.get_pixel_data().unwrap();
    assert_eq!(plane.len(), 2);
    assert_eq!(plane[0].len(), 3);
    assert_eq!(plane[0][0].len(), 4);
}

#[test]
fn efficient_reader_agrees_on_trailing_rows() {
    // A whole extra stride after the pixel array (profile-style data):
    // the decoded plane grows a row, yet both readers still agree.
    let mut img = BMP::new(2, 2, Some([10, 20, 30, 255]));
    img.change_color_of_pixel(0, 0, [1, 2, 3, 4]).unwrap();
    img.contents.extend_from_slice(&[0xABu8; 8]);
    let dib = img.get_dib_header().unwrap();
    let plane = img.get_pixel_data().unwrap();
    for y in 0..2usize {
        for x in 0..2usize {
            assert_eq!(
                img.get_color_of_pixel_efficient(x, y, &dib, &plane).unwrap(),
                img.get_color_of_pixel(x, y).unwrap()
            );
        }
    }
    assert_eq!(img.get_color_of_pixel_efficient(0, 0, &dib, &plane).unwrap(), [1, 2, 3, 4]);
    // Both readers bound y by the declared height, not the plane's rows.
    assert!(img.get_color_of_pixel_efficient(0, 2, &dib, &plane).is_err());
    assert!(img.get_color_of_pixel(0, 2).is_err());
}

#[test]
fn whole_image_ops_keep_header_bytes() {
    let mut img = BMP::new(2, 2, Some([5, 6, 7, 200]));
    let hdr_end = 14 + img.get_dib_header().unwrap().size as usize;
    let before = img.contents[..hdr_end].to_vec();
    img.invert(None).unwrap();
    img.change_opacity(9).unwrap();
    img.grayscale().unwrap();
    assert_eq!(&img.contents[..hdr_end], &before[..]);
}
