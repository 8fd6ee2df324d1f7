use softrender::codec::DecodeError;
use softrender::color::Color;
use softrender::geom::Point;
use softrender::image::Image;

fn round_trip(img: &Image, rle: bool) {
    let bytes = img.encode_tga(rle);
    let back = Image::decode_tga(&bytes).unwrap();
    assert_eq!(back.width, img.width);
    assert_eq!(back.height, img.height);
    assert_eq!(back.pixels, img.pixels);
}

fn pseudo_random_image(w: i32, h: i32, seed: u64) -> Image {
    let mut img = Image::new(w, h);
    let mut state = seed;
    for y in 0..h {
        for x in 0..w {
            state = state.wrapping_mul(6364136223846793005).wrapping_add(1442695040888963407);
            let c = Color {
                r: (state >> 40) as u8,
                g: (state >> 48) as u8,
                b: (state >> 56) as u8,
            };
            img.set(Point { x, y }, c);
        }
    }
    img
}

#[test]
fn round_trip_single_pixel() {
    let mut img = Image::new(1, 1);
    img.set(Point { x: 0, y: 0 }, Color { r: 9, g: 8, b: 7 });
    round_trip(&img, false);
    round_trip(&img, true);
}

#[test]
fn round_trip_two_pixels() {
    let mut img = Image::new(2, 1);
    img.set(Point { x: 0, y: 0 }, Color { r: 1, g: 2, b: 3 });
    img.set(Point { x: 1, y: 0 }, Color { r: 4, g: 5, b: 6 });
    round_trip(&img, false);
    round_trip(&img, true);
}

#[test]
fn round_trip_two_equal_pixels() {
    let mut img = Image::new(2, 1);
    img.set(Point { x: 0, y: 0 }, Color { r: 1, g: 2, b: 3 });
    img.set(Point { x: 1, y: 0 }, Color { r: 1, g: 2, b: 3 });
    round_trip(&img, true);
}

#[test]
fn round_trip_long_uniform_runs() {
    // rows far longer than one packet can carry
    let mut img = Image::new(300, 3);
    img.clear(Color { r: 77, g: 66, b: 55 });
    round_trip(&img, true);
    round_trip(&img, false);
}

#[test]
fn round_trip_random_pixels() {
    let img = pseudo_random_image(31, 17, 12345);
    round_trip(&img, true);
    round_trip(&img, false);
}

#[test]
fn round_trip_mixed_runs_and_raw() {
    let mut img = Image::new(10, 2);
    // row 0: aa bb c d e e e e f g
    let a = Color::gray(1);
    let c = |v: u8| Color::gray(v);
    for (x, col) in [a, a, c(2), c(3), c(4), c(4), c(4), c(4), c(5), c(6)].iter().enumerate() {
        img.set(Point { x: x as i32, y: 0 }, *col);
    }
    round_trip(&img, true);
}

#[test]
fn round_trip_empty_image() {
    let img = Image::new(0, 0);
    round_trip(&img, false);
    round_trip(&img, true);
}

#[test]
fn rle_encoding_is_smaller_on_uniform_image() {
    let mut img = Image::new(64, 64);
    img.clear(Color::gray(42));
    let raw = img.encode_tga(false);
    let rle = img.encode_tga(true);
    assert!(rle.len() < raw.len());
    assert_eq!(raw.len(), 18 + 3 * 64 * 64 + 26);
}

#[test]
fn tga_header_and_footer_layout() {
    let mut img = Image::new(2, 1);
    img.set(Point { x: 0, y: 0 }, Color { r: 1, g: 2, b: 3 });
    let bytes = img.encode_tga(false);
    // header: no id, no color map, type 2, zeroed color map and origin
    assert_eq!(&bytes[0..12], &[0, 0, 2, 0, 0, 0, 0, 0, 0, 0, 0, 0]);
    // little-endian dimensions, 24-bit depth, descriptor 0
    assert_eq!(&bytes[12..18], &[2, 0, 1, 0, 24, 0]);
    // payload: B, G, R per pixel
    assert_eq!(&bytes[18..24], &[3, 2, 1, 0, 0, 0]);
    // footer: zeroed offsets and signature
    let f = &bytes[bytes.len() - 26..];
    assert_eq!(&f[0..8], &[0; 8]);
    assert_eq!(&f[8..], b"TRUEVISION-XFILE.\0");
}

#[test]
fn rle_packets_as_stored() {
    let mut img = Image::new(4, 1);
    let a = Color { r: 1, g: 2, b: 3 };
    let d = Color { r: 7, g: 8, b: 9 };
    img.set(Point { x: 0, y: 0 }, a);
    img.set(Point { x: 1, y: 0 }, a);
    img.set(Point { x: 2, y: 0 }, a);
    img.set(Point { x: 3, y: 0 }, d);
    let bytes = img.encode_tga(true);
    // one run packet of three, one raw packet of one
    assert_eq!(&bytes[18..26], &[0x80 | 2, 3, 2, 1, 0, 9, 8, 7]);
}

#[test]
fn decode_empty_stream_fails() {
    assert_eq!(Image::decode_tga(&Vec::new()).err(), Some(DecodeError::UnexpectedEnd));
}

#[test]
fn decode_rejects_color_map() {
    let img = Image::new(1, 1);
    let mut bytes = img.encode_tga(false);
    bytes[1] = 1;
    assert_eq!(Image::decode_tga(&bytes).err(), Some(DecodeError::UnsupportedColorMap));
}

#[test]
fn decode_rejects_unknown_image_type() {
    let img = Image::new(1, 1);
    let mut bytes = img.encode_tga(false);
    bytes[2] = 3;
    assert_eq!(Image::decode_tga(&bytes).err(), Some(DecodeError::UnsupportedImageType));
}

#[test]
fn decode_rejects_nonzero_origin() {
    let img = Image::new(1, 1);
    let mut bytes = img.encode_tga(false);
    bytes[9] = 1;
    assert_eq!(Image::decode_tga(&bytes).err(), Some(DecodeError::UnsupportedOrigin));
}

#[test]
fn decode_rejects_other_depth() {
    let img = Image::new(1, 1);
    let mut bytes = img.encode_tga(false);
    bytes[16] = 32;
    assert_eq!(Image::decode_tga(&bytes).err(), Some(DecodeError::UnsupportedDepth));
}

#[test]
fn decode_rejects_unknown_descriptor_bits() {
    let img = Image::new(1, 1);
    let mut bytes = img.encode_tga(false);
    bytes[17] = 0b0000_0001;
    assert_eq!(Image::decode_tga(&bytes).err(), Some(DecodeError::UnsupportedDescriptor));
}

#[test]
fn decode_applies_descriptor_flips() {
    let mut img = Image::new(2, 1);
    img.set(Point { x: 0, y: 0 }, Color::gray(1));
    img.set(Point { x: 1, y: 0 }, Color::gray(2));
    let mut bytes = img.encode_tga(false);
    bytes[17] = 0b0000_1000; // mirrored left to right
    let back = Image::decode_tga(&bytes).unwrap();
    assert_eq!(back.get(Point { x: 0, y: 0 }), Some(Color::gray(2)));
    assert_eq!(back.get(Point { x: 1, y: 0 }), Some(Color::gray(1)));
}

#[test]
fn decode_truncated_pixels_fails() {
    let mut img = Image::new(3, 1);
    img.set(Point { x: 1, y: 0 }, Color::gray(5));
    for rle in [false, true] {
        let bytes = img.encode_tga(rle);
        let cut: Vec<u8> = bytes[..bytes.len() - 27].to_vec();
        assert_eq!(Image::decode_tga(&cut).err(), Some(DecodeError::UnexpectedEnd));
    }
}

#[test]
fn decode_rejects_overflowing_dimensions() {
    let img = Image::new(0, 0);
    let mut bytes = img.encode_tga(false);
    // 65535 by 65535 pixels would overflow the raster's index arithmetic
    bytes[12] = 255;
    bytes[13] = 255;
    bytes[14] = 255;
    bytes[15] = 255;
    assert_eq!(Image::decode_tga(&bytes).err(), Some(DecodeError::UnsupportedDimensions));
}

#[test]
fn bmp_layout() {
    let mut img = Image::new(2, 1);
    img.set(Point { x: 0, y: 0 }, Color { r: 1, g: 2, b: 3 });
    let bytes = img.encode_bmp();
    assert_eq!(bytes.len(), 54 + 6);
    assert_eq!(&bytes[0..2], b"BM");
    // file size, little endian
    assert_eq!(&bytes[2..6], &[60, 0, 0, 0]);
    // pixel data offset and info header size
    assert_eq!(&bytes[10..14], &[54, 0, 0, 0]);
    assert_eq!(&bytes[14..18], &[40, 0, 0, 0]);
    // signed dimensions
    assert_eq!(&bytes[18..22], &[2, 0, 0, 0]);
    assert_eq!(&bytes[22..26], &[1, 0, 0, 0]);
    // one plane, 24 bits, no compression
    assert_eq!(&bytes[26..30], &[1, 0, 24, 0]);
    assert_eq!(&bytes[30..34], &[0, 0, 0, 0]);
    // pixels, stored B, G, R
    assert_eq!(&bytes[54..60], &[3, 2, 1, 0, 0, 0]);
}
