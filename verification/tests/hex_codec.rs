//! Hex rendering and parsing, including the round trip through the real
//! Oklch-to-RGB conversion.

use iro::{hex_to_rgb, rgb_to_hex, slot_key};
use palette::{IntoColor, Oklch, Srgb};

#[test]
fn renders_lowercase_hex() {
    assert_eq!(rgb_to_hex(255, 0, 17), "ff0011");
    assert_eq!(rgb_to_hex(0, 0, 0), "000000");
    assert_eq!(rgb_to_hex(0x12, 0x34, 0x56), "123456");
    assert_eq!(rgb_to_hex(255, 255, 255), "ffffff");
}

#[test]
fn slot_keys_use_uppercase_hex() {
    assert_eq!(slot_key(0), "base00");
    assert_eq!(slot_key(9), "base09");
    assert_eq!(slot_key(10), "base0A");
    assert_eq!(slot_key(15), "base0F");
    assert_eq!(slot_key(16), "base10");
    assert_eq!(slot_key(23), "base17");
}

#[test]
fn parses_what_it_renders() {
    let triples = [(0u8, 0u8, 0u8), (255, 255, 255), (18, 52, 86), (1, 254, 128)];
    for &(r, g, b) in triples.iter() {
        assert_eq!(hex_to_rgb(&rgb_to_hex(r, g, b)), Some((r, g, b)));
    }
}

#[test]
fn rejects_malformed_hex() {
    assert_eq!(hex_to_rgb(""), None);
    assert_eq!(hex_to_rgb("ff001"), None);
    assert_eq!(hex_to_rgb("ff00112"), None);
    assert_eq!(hex_to_rgb("FF0011"), None);
    assert_eq!(hex_to_rgb("gg0011"), None);
}

/// A known Oklch color survives the trip to an 8-bit hex string and back
/// through the inverse conversion within one step per channel.
#[test]
fn oklch_hex_round_trip_is_faithful() {
    let color: Oklch<f64> = Oklch::new(0.6, 0.12, 0.0);
    let rgb: Srgb<u8> = Srgb::from_linear(color.into_color());
    let hex = rgb_to_hex(rgb.red, rgb.green, rgb.blue);
    let (r, g, b) = hex_to_rgb(&hex).unwrap();
    assert_eq!((r, g, b), (rgb.red, rgb.green, rgb.blue));

    let back: Oklch<f64> = Srgb::new(r, g, b).into_linear::<f64>().into_color();
    let again: Srgb<u8> = Srgb::from_linear(back.into_color());
    assert!((i16::from(again.red) - i16::from(r)).abs() <= 1);
    assert!((i16::from(again.green) - i16::from(g)).abs() <= 1);
    assert!((i16::from(again.blue) - i16::from(b)).abs() <= 1);
}
