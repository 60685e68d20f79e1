//! Composer behavior: slot layout, padding, rotation, styles, failure.

use iro::{color_array, generate_palette, parse_colors, Color, PaletteError, PaletteSettings,
    PaletteStyle, ParseColorsSettings};

fn c(l: u32, ch: u32, h: u32) -> Color {
    Color { l, c: ch, h }
}

fn dark() -> PaletteSettings {
    PaletteSettings::default_for(PaletteStyle::Dark)
}

#[test]
fn output_has_exactly_24_slots() {
    let colors = vec![c(500, 200, 10_000), c(400, 150, 120_000), c(600, 180, 250_000)];
    let palette = generate_palette(colors, &dark()).unwrap();
    assert_eq!(palette.len(), 24);
}

#[test]
fn composing_twice_gives_identical_palettes() {
    let colors = vec![c(500, 200, 10_000), c(400, 150, 120_000)];
    let a = generate_palette(colors.clone(), &dark()).unwrap();
    let b = generate_palette(colors, &dark()).unwrap();
    assert_eq!(a, b);
}

/// The whole pipeline — extraction then composition — is bit-for-bit
/// repeatable on the same pixels and settings.
#[test]
fn full_pipeline_is_deterministic() {
    let pixels = vec![
        c(500, 100, 10_000),
        c(400, 300, 250_000),
        c(600, 250, 180_000),
        c(450, 220, 300_000),
        c(300, 50, 355_000),
    ];
    let parse_settings = ParseColorsSettings { segment_size: 15 };
    let a = generate_palette(parse_colors(&pixels, &parse_settings), &dark()).unwrap();
    let b = generate_palette(parse_colors(&pixels, &parse_settings), &dark()).unwrap();
    assert_eq!(a, b);
}

#[test]
fn keep_below_eight_fails() {
    let colors = vec![c(500, 200, 10_000); 10];
    let mut settings = dark();
    settings.keep = Some(7);
    assert_eq!(
        generate_palette(colors, &settings),
        Err(PaletteError::InsufficientColors)
    );
}

#[test]
fn keep_of_eight_or_none_succeeds() {
    let colors = vec![c(500, 200, 10_000); 10];
    let mut settings = dark();
    settings.keep = Some(8);
    assert!(generate_palette(colors.clone(), &settings).is_ok());
    settings.keep = None;
    assert!(generate_palette(colors.clone(), &settings).is_ok());
    settings.keep = Some(100);
    assert!(generate_palette(colors, &settings).is_ok());
}

#[test]
fn dark_ramp_ascends_in_eighths() {
    let colors = vec![c(500, 200, 10_000)];
    let palette = generate_palette(colors, &dark()).unwrap();
    for i in 0..8 {
        assert_eq!(palette[i].l, 125 * (i as u32 + 1));
        assert_eq!(palette[i].c, 30);
        assert_eq!(palette[i].h, 10_000);
    }
}

#[test]
fn light_ramp_reverses_dark_ramp() {
    let colors = vec![c(500, 200, 10_000), c(400, 150, 120_000)];
    let mut light = dark();
    light.style = PaletteStyle::Light;
    let d = generate_palette(colors.clone(), &dark()).unwrap();
    let l = generate_palette(colors, &light).unwrap();
    for i in 0..8 {
        assert_eq!(d[i].l, l[7 - i].l);
    }
}

#[test]
fn backgrounds_swap_extremes_between_styles() {
    let colors = vec![c(500, 200, 10_000)];
    let mut light = dark();
    light.style = PaletteStyle::Light;
    let d = generate_palette(colors.clone(), &dark()).unwrap();
    let l = generate_palette(colors, &light).unwrap();
    assert_eq!((d[16].l, d[17].l), (50, 0));
    assert_eq!((l[16].l, l[17].l), (850, 900));
    assert_eq!(d[16].h, 10_000);
    assert_eq!(l[16].h, 10_000);
}

/// Eight distinct hues, handed over in scrambled order, come out sorted by
/// whole hue degree across the highlight slots when no rotation is applied.
#[test]
fn highlight_hues_sort_ascending() {
    let hues = [200_000, 40_000, 310_000, 90_000, 10_000, 150_000, 260_000, 350_000];
    let colors: Vec<Color> = hues.iter().map(|&h| c(500, 200, h)).collect();
    let palette = generate_palette(colors, &dark()).unwrap();
    let mut sorted = hues;
    sorted.sort();
    for i in 0..8 {
        assert_eq!(palette[8 + i].h, sorted[i]);
        assert_eq!(palette[8 + i].l, 600);
        assert_eq!(palette[8 + i].c, 120);
    }
}

/// Rotation shifts which sorted hue lands in which slot, cyclically.
#[test]
fn rotation_shifts_slot_assignment() {
    let hues = [200_000, 40_000, 310_000, 90_000, 10_000, 150_000, 260_000, 350_000];
    let colors: Vec<Color> = hues.iter().map(|&h| c(500, 200, h)).collect();
    let plain = generate_palette(colors.clone(), &dark()).unwrap();
    let mut settings = dark();
    settings.rotation = 3;
    let turned = generate_palette(colors, &settings).unwrap();
    for i in 0..8 {
        assert_eq!(turned[8 + i].h, plain[8 + (i + 3) % 8].h);
    }
}

/// The six bright slots scale sorted highlights 0, 1, 3, 4, 5 and 6 by 1.2
/// and leave highlights 2 and 7 without a bright variant. With no rotation
/// the sorted order and the slot order coincide.
#[test]
fn bright_slots_scale_their_sources() {
    let hues = [200_000, 40_000, 310_000, 90_000, 10_000, 150_000, 260_000, 350_000];
    let colors: Vec<Color> = hues.iter().map(|&h| c(500, 200, h)).collect();
    let palette = generate_palette(colors, &dark()).unwrap();
    let sources = [0, 1, 3, 4, 5, 6];
    for (j, &src) in sources.iter().enumerate() {
        let bright = palette[18 + j];
        let base = palette[8 + src];
        assert_eq!(bright.l, base.l * 12 / 10);
        assert_eq!(bright.c, base.c * 12 / 10);
        assert_eq!(bright.h, base.h);
    }
    for j in 0..6 {
        assert_ne!(palette[18 + j].h, palette[8 + 2].h);
        assert_ne!(palette[18 + j].h, palette[8 + 7].h);
    }
}

/// The bright slots descend from the hue-sorted order before the rotation
/// offset is applied, so rotating leaves them untouched.
#[test]
fn bright_slots_ignore_rotation() {
    let hues = [200_000, 40_000, 310_000, 90_000, 10_000, 150_000, 260_000, 350_000];
    let colors: Vec<Color> = hues.iter().map(|&h| c(500, 200, h)).collect();
    let plain = generate_palette(colors.clone(), &dark()).unwrap();
    let mut settings = dark();
    settings.rotation = 3;
    let turned = generate_palette(colors, &settings).unwrap();
    for j in 0..6 {
        assert_eq!(turned[18 + j], plain[18 + j]);
    }
}

/// Even under rotation, the bright slots take sorted hues 0, 1, 3, 4, 5
/// and 6 — never the sorted hues at positions 2 or 7.
#[test]
fn bright_sources_are_pre_rotation() {
    // Sorted hues are 1, 2, ..., 8 degrees.
    let hues = [5_000u32, 3_000, 8_000, 1_000, 7_000, 2_000, 4_000, 6_000];
    let colors: Vec<Color> = hues.iter().map(|&h| c(500, 200, h)).collect();
    let mut settings = dark();
    settings.rotation = 1;
    let palette = generate_palette(colors, &settings).unwrap();
    let expected = [1_000u32, 2_000, 4_000, 5_000, 6_000, 7_000];
    for j in 0..6 {
        assert_eq!(palette[18 + j].h, expected[j]);
        assert_eq!(palette[18 + j].l, 720);
        assert_eq!(palette[18 + j].c, 144);
    }
    for j in 0..6 {
        assert_ne!(palette[18 + j].h, 3_000);
        assert_ne!(palette[18 + j].h, 8_000);
    }
}

/// With fewer than eight inputs the highlight slots only ever show hues
/// that were in the input: the padding duplicates, it invents nothing.
#[test]
fn padding_invents_no_hues() {
    let hues = [10_000u32, 120_000, 250_000];
    let colors: Vec<Color> = hues.iter().map(|&h| c(500, 200, h)).collect();
    let palette = generate_palette(colors, &dark()).unwrap();
    for i in 0..8 {
        assert!(hues.contains(&palette[8 + i].h));
    }
    for &h in hues.iter() {
        assert!((0..8).any(|i| palette[8 + i].h == h));
    }
}

/// The eight most chromatic of the kept colors win the highlight slots.
#[test]
fn chroma_picks_the_highlights() {
    let mut colors = Vec::new();
    for i in 0..10u32 {
        // Hues 0, 10, 20, ... degrees; chroma rises with the hue.
        colors.push(c(500, 100 + 10 * i, 10_000 * i));
    }
    let palette = generate_palette(colors, &dark()).unwrap();
    // The two least chromatic colors (hues 0 and 10 degrees) lost.
    for i in 0..8 {
        assert!(palette[8 + i].h >= 20_000);
    }
}

#[test]
fn defaults_match_their_style() {
    let d = PaletteSettings::default_for(PaletteStyle::Dark);
    assert_eq!(d.style, PaletteStyle::Dark);
    assert_eq!(d.keep, None);
    assert_eq!(d.rotation, 0);
    assert_eq!((d.base_chroma, d.hl_chroma, d.hl_lightness), (30, 120, 600));
    let l = PaletteSettings::default_for(PaletteStyle::Light);
    assert_eq!(l.style, PaletteStyle::Light);
    assert_eq!((l.base_chroma, l.hl_chroma, l.hl_lightness), (40, 140, 500));
    assert_eq!(PaletteSettings::default(), d);
    assert_eq!(PaletteStyle::default(), PaletteStyle::Dark);
}

#[test]
fn style_names() {
    assert_eq!(PaletteStyle::Dark.name(), "dark");
    assert_eq!(PaletteStyle::Light.name(), "light");
}

#[test]
fn color_array_draws_exactly_n() {
    let colors = vec![c(1, 2, 3), c(4, 5, 6), c(7, 8, 9)];
    assert_eq!(color_array(&colors, 2), Some(vec![c(1, 2, 3), c(4, 5, 6)]));
    assert_eq!(color_array(&colors, 3), Some(colors.clone()));
    assert_eq!(color_array(&colors, 4), None);
    assert_eq!(color_array(&Vec::new(), 0), Some(Vec::new()));
}

#[test]
fn style_wrapper_carries_the_palette() {
    let colors = vec![c(500, 200, 10_000)];
    let style = iro::style_from_colors(colors.clone(), &dark()).unwrap();
    assert_eq!(style.name, "Test Style");
    assert_eq!(style.author, "");
    assert_eq!(style.variant, "dark");
    assert_eq!(style.palette, generate_palette(colors, &dark()).unwrap());
}

#[test]
fn style_wrapper_fails_like_the_composer() {
    let colors = vec![c(500, 200, 10_000)];
    let mut settings = dark();
    settings.keep = Some(3);
    assert!(iro::style_from_colors(colors, &settings).is_err());
}
