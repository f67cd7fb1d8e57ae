use pagepack::compositor::{blend, remove_alpha_channel, rgba_to_rgb, RawImage};
use pagepack::images::ImageToPack;
use pagepack::sizes::{parse_mm, to_mm, to_px};

#[test]
fn to_px_exact_values() {
    // an A4 width of 210 mm at 300 dots per inch
    assert_eq!(to_px(210_000, 300), 2480);
    // a 3 mm border at 300 dots per inch
    assert_eq!(to_px(3_000, 300), 35);
    // a 1 mm margin at 300 dots per inch
    assert_eq!(to_px(1_000, 300), 12);
    assert_eq!(to_px(0, 300), 0);
    // one inch is exactly the resolution
    assert_eq!(to_px(25_400, 300), 300);
    assert_eq!(to_px(25_400, 72), 72);
}

#[test]
fn to_mm_exact_values() {
    assert_eq!(to_mm(300, 300), 25_400);
    assert_eq!(to_mm(2012, 300), 170_349);
    assert_eq!(to_mm(0, 300), 0);
}

#[test]
fn px_round_trip_is_exact() {
    for dpi in [72u32, 96, 150, 300, 600, 1200] {
        for px in [0u64, 1, 7, 35, 2480, 10_000, 123_456] {
            assert_eq!(to_px(to_mm(px, dpi), dpi), px);
        }
    }
}

#[test]
fn parse_mm_whole_and_fraction() {
    assert_eq!(parse_mm("210"), Ok(210_000));
    assert_eq!(parse_mm("297.0"), Ok(297_000));
    assert_eq!(parse_mm("3.5"), Ok(3_500));
    assert_eq!(parse_mm("1.0"), Ok(1_000));
    assert_eq!(parse_mm("0.25"), Ok(250));
    // the fourth fraction digit is truncated
    assert_eq!(parse_mm("0.1234"), Ok(123));
    // a trailing decimal point reads as a whole number
    assert_eq!(parse_mm("12."), Ok(12_000));
    assert_eq!(parse_mm("0"), Ok(0));
    assert_eq!(parse_mm("100000000"), Ok(100_000_000_000));
}

#[test]
fn parse_mm_sign_bare_fraction_and_exponent() {
    assert_eq!(parse_mm("+2"), Ok(2_000));
    assert_eq!(parse_mm(".5"), Ok(500));
    assert_eq!(parse_mm("+.5"), Ok(500));
    assert_eq!(parse_mm("1e3"), Ok(1_000_000));
    assert_eq!(parse_mm("1E2"), Ok(100_000));
    assert_eq!(parse_mm("2.5e1"), Ok(25_000));
    assert_eq!(parse_mm("1e+2"), Ok(100_000));
    // the exponent shifts the digits before any truncation
    assert_eq!(parse_mm("0.0001e4"), Ok(1_000));
    // digits beyond the thousandth truncate toward zero
    assert_eq!(parse_mm("0.000000000000001"), Ok(0));
    // a zero mantissa is zero under any exponent
    assert_eq!(parse_mm("0e99"), Ok(0));
}

#[test]
fn parse_mm_rejects_bad_numerals() {
    assert!(parse_mm("").is_err());
    assert!(parse_mm("abc").is_err());
    assert!(parse_mm(".").is_err());
    assert!(parse_mm("+").is_err());
    assert!(parse_mm("1.2.3").is_err());
    assert!(parse_mm("12a").is_err());
    assert!(parse_mm("1,5").is_err());
    assert!(parse_mm("-3").is_err());
    assert!(parse_mm("1e").is_err());
    assert!(parse_mm("1e-3").is_err());
    assert!(parse_mm("1e9").is_err());
    // one thousandth over the accepted maximum
    assert!(parse_mm("100000000.001").is_err());
    assert!(parse_mm("100000001").is_err());
    // more mantissa digits than the reader holds
    assert!(parse_mm("1234567890.1234567").is_err());
}

#[test]
fn blend_formula_values() {
    // fully transparent: pure white
    assert_eq!(blend(0, 0), 255);
    assert_eq!(blend(200, 0), 255);
    // fully opaque: the channel itself
    assert_eq!(blend(10, 255), 10);
    assert_eq!(blend(0, 255), 0);
    // half transparent black over white
    assert_eq!(blend(0, 128), 127);
}

#[test]
fn rgba_to_rgb_transparent_is_white() {
    assert_eq!(rgba_to_rgb(&[10, 20, 30, 0]), [255, 255, 255]);
}

#[test]
fn rgba_to_rgb_opaque_passes_through() {
    assert_eq!(rgba_to_rgb(&[10, 20, 30, 255]), [10, 20, 30]);
}

#[test]
fn remove_alpha_channel_passes_opaque_image_through() {
    let img = RawImage { width: 2, height: 1, has_alpha: false, pixels: vec![1, 2, 3, 4, 5, 6] };
    let out = remove_alpha_channel(img);
    assert!(!out.has_alpha);
    assert_eq!(out.pixels, vec![1, 2, 3, 4, 5, 6]);
    assert_eq!(out.width, 2);
    assert_eq!(out.height, 1);
}

#[test]
fn remove_alpha_channel_composites_over_white() {
    // one fully transparent pixel, one fully opaque pixel
    let img = RawImage {
        width: 2,
        height: 1,
        has_alpha: true,
        pixels: vec![10, 20, 30, 0, 40, 50, 60, 255],
    };
    let out = remove_alpha_channel(img);
    assert!(!out.has_alpha);
    assert_eq!(out.pixels, vec![255, 255, 255, 40, 50, 60]);
}

#[test]
fn remove_alpha_channel_is_idempotent() {
    let img = RawImage {
        width: 1,
        height: 2,
        has_alpha: true,
        pixels: vec![10, 20, 30, 128, 200, 100, 0, 17],
    };
    let once = remove_alpha_channel(img);
    let again = remove_alpha_channel(once.clone());
    assert_eq!(once.pixels, again.pixels);
    assert_eq!(once.width, again.width);
    assert_eq!(once.height, again.height);
    assert_eq!(once.has_alpha, again.has_alpha);
}

#[test]
fn from_dimensions_adds_margin_and_clamps() {
    let d = ImageToPack::from_dimensions("a".to_string(), 2000, 1500, None, None, 6);
    assert_eq!(d.width, 2012);
    assert_eq!(d.height, 1512);
    assert_eq!(d.margin, 6);
    assert_eq!(d.path, "a");

    // the maximum shrinks, never enlarges
    let e = ImageToPack::from_dimensions("b".to_string(), 2000, 1500, Some(1000), Some(3000), 0);
    assert_eq!(e.width, 1000);
    assert_eq!(e.height, 1500);
}

#[test]
fn page_setup_a4_at_300() {
    let s = pagepack::sizes::page_setup(210_000, 297_000, 3_000, 1_000, 300).expect("room left");
    assert_eq!((s.width_px, s.height_px), (2410, 3438));
    assert_eq!((s.border_px, s.margin_px), (35, 6));
    // a border as wide as the page leaves no room
    assert!(pagepack::sizes::page_setup(10_000, 297_000, 5_000, 1_000, 300).is_none());
}
