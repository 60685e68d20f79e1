//! The whole pipeline on a solid-color image: one dominant color must tint
//! every slot.

use iro::{generate_palette, parse_colors, Color, PaletteSettings, PaletteStyle,
    ParseColorsSettings};

/// A solid image (every pixel identical, chroma above zero), 15 hue
/// segments, keep 8, dark style with default tuning: the extractor yields
/// exactly the pixel's color, the composer pads it to all eight highlight
/// slots, and the base ramp spans eight distinct lightness levels in that
/// same hue.
#[test]
fn solid_image_tints_every_slot() {
    let pixel = Color { l: 600, c: 150, h: 200_000 };
    let pixels = vec![pixel; 64];

    let extracted = parse_colors(&pixels, &ParseColorsSettings { segment_size: 15 });
    assert_eq!(extracted, vec![pixel]);

    let mut settings = PaletteSettings::default_for(PaletteStyle::Dark);
    settings.keep = Some(8);
    let palette = generate_palette(extracted, &settings).unwrap();
    assert_eq!(palette.len(), 24);

    // Every slot shares the one dominant hue.
    for slot in palette.iter() {
        assert_eq!(slot.h, 200_000);
    }
    // All eight highlight slots show the single hue at the highlight tuning.
    for i in 8..16 {
        assert_eq!(palette[i], Color { l: 600, c: 120, h: 200_000 });
    }
    // The ramp spans eight distinct lightness levels.
    for i in 0..8 {
        assert_eq!(palette[i].l, 125 * (i as u32 + 1));
        assert_eq!(palette[i].c, 30);
    }
    for i in 0..8 {
        for j in 0..8 {
            if i != j {
                assert_ne!(palette[i].l, palette[j].l);
            }
        }
    }
}
