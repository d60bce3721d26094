use pixelmap::codec::decode_image;
use pixelmap::codec::encode_grayscale;
use pixelmap::codec::encode_image;
use pixelmap::codec::ParseError;
use pixelmap::image::Pixel;
use pixelmap::image::Screen;

fn px(red: u8, green: u8, blue: u8) -> Pixel {
    Pixel { red, green, blue }
}

#[test]
fn round_trip_square_image() {
    let pixels = vec![px(1, 2, 3), px(4, 5, 6), px(7, 8, 9), px(10, 11, 12)];
    let bytes = encode_image(2, 2, &pixels);
    let screen = decode_image(&bytes).expect("round trip should parse");
    assert_eq!(screen.width, 2);
    assert_eq!(screen.height, 2);
    assert_eq!(screen.pixels, pixels);
}

#[test]
fn round_trip_larger_square() {
    let mut pixels = Vec::new();
    for k in 0..25u8 {
        pixels.push(px(k, 255 - k, k.wrapping_mul(7)));
    }
    let bytes = encode_image(5, 5, &pixels);
    let screen = decode_image(&bytes).expect("round trip should parse");
    assert_eq!(screen.width, 5);
    assert_eq!(screen.height, 5);
    assert_eq!(screen.pixels, pixels);
}

#[test]
fn header_writes_height_before_width() {
    let pixels = vec![px(0, 0, 0); 15];
    let bytes = encode_image(3, 5, &pixels);
    assert_eq!(&bytes[..11], b"P6\n3 5 255\n");
}

#[test]
fn non_square_dimensions_swap_on_read() {
    // The writer puts the height first, the reader takes the width first:
    // only square images keep their dimensions across a round trip.
    let pixels = vec![px(9, 9, 9); 6];
    let bytes = encode_image(2, 3, &pixels);
    let screen = decode_image(&bytes).expect("parses fine, dimensions swapped");
    assert_eq!(screen.width, 2);
    assert_eq!(screen.height, 3);
    assert_eq!(screen.pixels, pixels);
}

#[test]
fn grayscale_repeats_each_sample_three_times() {
    let samples = vec![0u8, 128, 255, 64];
    let bytes = encode_grayscale(2, 2, &samples);
    assert_eq!(&bytes[..11], b"P6\n2 2 255\n");
    assert_eq!(
        &bytes[11..],
        &[0, 0, 0, 128, 128, 128, 255, 255, 255, 64, 64, 64]
    );
}

#[test]
fn single_line_file_is_a_structured_error() {
    let data = b"P6".to_vec();
    assert_eq!(decode_image(&data), Err(ParseError::MissingHeader));
}

#[test]
fn empty_file_is_a_structured_error() {
    let data = Vec::new();
    assert_eq!(decode_image(&data), Err(ParseError::MissingHeader));
}

#[test]
fn header_without_data_is_missing_data() {
    let data = b"P6\n2 2 255\n".to_vec();
    assert_eq!(decode_image(&data), Err(ParseError::MissingData));
}

#[test]
fn unterminated_dimension_line_is_missing_data() {
    let data = b"P6\n2 2 255".to_vec();
    assert_eq!(decode_image(&data), Err(ParseError::MissingData));
}

#[test]
fn non_numeric_dimensions_are_rejected() {
    let data = b"P6\nab cd 255\nXYZXYZ".to_vec();
    assert_eq!(decode_image(&data), Err(ParseError::BadDimensions));
}

#[test]
fn dimension_line_without_space_is_rejected() {
    let data = b"P6\n22255\nXYZ".to_vec();
    assert_eq!(decode_image(&data), Err(ParseError::BadDimensions));
}

#[test]
fn oversized_dimension_is_rejected() {
    let data = b"P6\n184467440737095516160 2 255\nXYZ".to_vec();
    assert_eq!(decode_image(&data), Err(ParseError::BadDimensions));
}

#[test]
fn short_sample_data_is_accepted_truncated() {
    // The reader never checks the pixel count against the dimensions.
    let data = b"P6\n2 2 255\nABCDEF".to_vec();
    let screen = decode_image(&data).expect("short data is accepted");
    assert_eq!(screen.width, 2);
    assert_eq!(screen.height, 2);
    assert_eq!(screen.pixels, vec![px(65, 66, 67), px(68, 69, 70)]);
}

#[test]
fn trailing_partial_chunk_is_dropped() {
    let data = b"P6\n1 1 255\nABCD".to_vec();
    let screen = decode_image(&data).expect("partial chunk is dropped");
    assert_eq!(screen.pixels, vec![px(65, 66, 67)]);
}

#[test]
fn sample_bytes_may_contain_newlines() {
    // Everything after the second newline is raw data, newline bytes included.
    let data = b"P6\n1 1 255\nA\nB".to_vec();
    let screen = decode_image(&data).expect("raw data parses");
    assert_eq!(screen.pixels, vec![px(65, 10, 66)]);
}

#[test]
fn screen_new_fills_every_pixel() {
    let screen = Screen::new(3, 2, px(7, 8, 9));
    assert_eq!(screen.width, 3);
    assert_eq!(screen.height, 2);
    assert_eq!(screen.pixels, vec![px(7, 8, 9); 6]);
}
