use softrender::color::Color;

#[test]
fn hex_short_form() {
    let c = Color::hex(b"#fff");
    assert_eq!(c, Color { r: 255, g: 255, b: 255 });
    let c = Color::hex(b"#123");
    assert_eq!(c, Color { r: 0x11, g: 0x22, b: 0x33 });
}

#[test]
fn hex_long_form() {
    let c = Color::hex(b"#dbc6b8");
    assert_eq!(c, Color { r: 0xdb, g: 0xc6, b: 0xb8 });
    let c = Color::hex(b"#0a0B0c");
    assert_eq!(c, Color { r: 10, g: 11, b: 12 });
}

#[test]
fn hex_invalid_is_black() {
    assert_eq!(Color::hex(b"123"), Color { r: 0, g: 0, b: 0 });
    assert_eq!(Color::hex(b"#12"), Color { r: 0, g: 0, b: 0 });
    assert_eq!(Color::hex(b""), Color { r: 0, g: 0, b: 0 });
    assert_eq!(Color::hex(b"#12345"), Color { r: 0, g: 0, b: 0 });
}

#[test]
fn hex_bad_digit_counts_as_zero() {
    assert_eq!(Color::hex(b"#zzz"), Color { r: 0, g: 0, b: 0 });
    assert_eq!(Color::hex(b"#1z1z1z"), Color { r: 0x10, g: 0x10, b: 0x10 });
}

#[test]
fn gray_sets_all_channels() {
    assert_eq!(Color::gray(7), Color { r: 7, g: 7, b: 7 });
}

#[test]
fn bytes_round_trip() {
    let c = Color { r: 1, g: 2, b: 3 };
    let b = c.to_bytes();
    assert_eq!(b, [3, 2, 1]);
    assert_eq!(Color::from_bytes(b), c);
}

#[test]
fn light_ratio_full_intensity_is_identity() {
    let c = Color { r: 10, g: 200, b: 255 };
    assert_eq!(c.light_ratio(1, 1), c);
    assert_eq!(c.light_ratio(7, 7), c);
}

#[test]
fn light_ratio_nonpositive_clamps_to_black() {
    let c = Color { r: 10, g: 200, b: 255 };
    assert_eq!(c.light_ratio(0, 1), Color { r: 0, g: 0, b: 0 });
    assert_eq!(c.light_ratio(-3, 2), Color { r: 0, g: 0, b: 0 });
}

#[test]
fn light_ratio_scales_and_truncates() {
    let c = Color { r: 100, g: 9, b: 255 };
    // one third, rounded down per channel
    assert_eq!(c.light_ratio(1, 3), Color { r: 33, g: 3, b: 85 });
}

#[test]
fn light_ratio_saturates() {
    let c = Color { r: 200, g: 1, b: 0 };
    assert_eq!(c.light_ratio(2, 1), Color { r: 255, g: 2, b: 0 });
}
