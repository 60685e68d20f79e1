//! Extractor behavior: chroma filtering, hue bucketing, ranking.

use iro::{parse_colors, Color, ParseColorsSettings};

fn c(l: u32, ch: u32, h: u32) -> Color {
    Color { l, c: ch, h }
}

fn seg(segment_size: u32) -> ParseColorsSettings {
    ParseColorsSettings { segment_size }
}

#[test]
fn empty_buffer_yields_nothing() {
    let pixels: Vec<Color> = Vec::new();
    assert_eq!(parse_colors(&pixels, &seg(16)), Vec::new());
}

/// A solid-color buffer yields exactly that color.
#[test]
fn solid_buffer_yields_its_color() {
    let pixels = vec![c(600, 150, 200_000); 50];
    assert_eq!(parse_colors(&pixels, &seg(15)), vec![c(600, 150, 200_000)]);
}

/// Pixels whose chroma falls below the buffer's mean are dropped before
/// clustering.
#[test]
fn low_chroma_pixels_are_dropped() {
    // Mean chroma is (100 + 100 + 300 + 300) / 4 = 200: only the two vivid
    // pixels survive, and they share a bucket.
    let pixels = vec![
        c(500, 100, 10_000),
        c(500, 100, 180_000),
        c(400, 300, 250_000),
        c(600, 300, 250_000),
    ];
    assert_eq!(parse_colors(&pixels, &seg(16)), vec![c(500, 300, 250_000)]);
}

/// Pixels exactly at the mean chroma survive the cutoff.
#[test]
fn mean_chroma_pixel_survives() {
    let pixels = vec![c(500, 200, 10_000); 3];
    assert_eq!(parse_colors(&pixels, &seg(16)), vec![c(500, 200, 10_000)]);
}

/// Buckets are ranked by how many pixels they gathered, biggest first.
#[test]
fn buckets_rank_by_population() {
    let mut pixels = vec![c(500, 200, 300_000); 2];
    pixels.extend(vec![c(500, 200, 100_000); 3]);
    let out = parse_colors(&pixels, &seg(16));
    assert_eq!(out, vec![c(500, 200, 100_000), c(500, 200, 300_000)]);
}

/// Equally populated buckets keep their order of first appearance.
#[test]
fn equal_buckets_keep_first_appearance_order() {
    let pixels = vec![
        c(500, 200, 300_000),
        c(500, 200, 100_000),
        c(500, 200, 300_000),
        c(500, 200, 100_000),
    ];
    let out = parse_colors(&pixels, &seg(16));
    assert_eq!(out, vec![c(500, 200, 300_000), c(500, 200, 100_000)]);
}

/// A bucket's color is the channel-wise mean of its pixels.
#[test]
fn bucket_color_is_the_member_mean() {
    let pixels = vec![c(400, 250, 100_000), c(600, 250, 102_000)];
    let out = parse_colors(&pixels, &seg(16));
    assert_eq!(out, vec![c(500, 250, 101_000)]);
}

/// `segment_size` sets the granularity: more segments mean narrower
/// buckets. Hues 10 and 20 degrees share a bucket at 15 segments (24-degree
/// arcs) and part ways at 36 segments (10-degree arcs).
#[test]
fn segment_size_controls_bucket_width() {
    let pixels = vec![c(500, 200, 10_000), c(500, 200, 20_000)];
    let coarse = parse_colors(&pixels, &seg(15));
    assert_eq!(coarse, vec![c(500, 200, 15_000)]);
    let fine = parse_colors(&pixels, &seg(36));
    assert_eq!(fine.len(), 2);
    assert_eq!(fine[0], c(500, 200, 10_000));
    assert_eq!(fine[1], c(500, 200, 20_000));
}

/// Extraction is a pure function of its input.
#[test]
fn extraction_is_deterministic() {
    let pixels = vec![
        c(500, 100, 10_000),
        c(400, 300, 250_000),
        c(600, 250, 180_000),
        c(300, 50, 355_000),
    ];
    assert_eq!(parse_colors(&pixels, &seg(16)), parse_colors(&pixels, &seg(16)));
}

#[test]
fn default_segment_size_is_sixteen() {
    assert_eq!(ParseColorsSettings::default().segment_size, 16);
}
