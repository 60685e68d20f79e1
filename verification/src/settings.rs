//! Tuning parameters for the two pipeline stages.

use vstd::prelude::*;

verus! {

/// Whether the palette is built for a dark or a light terminal background.
/// The two styles are mirror images: they share the same construction and
/// differ only in the direction of the base ramp and in their constants.
#[derive(Clone, Copy, Debug, PartialEq, Eq, Structural)]
pub enum PaletteStyle {
    Dark,
    Light,
}

impl Default for PaletteStyle {
    fn default() -> (s: Self)
        ensures
            s == PaletteStyle::Dark,
    {
        PaletteStyle::Dark
    }
}

impl PaletteStyle {
    /// The style's lower-case name, as written into a scheme's `variant`
    /// field.
    pub fn name(&self) -> (s: String)
        ensures
            *self == PaletteStyle::Dark ==> s@ == "dark"@,
            *self == PaletteStyle::Light ==> s@ == "light"@,
    {
        match self {
            PaletteStyle::Dark => String::from_str("dark"),
            PaletteStyle::Light => String::from_str("light"),
        }
    }
}

/// Settings of the palette composer. `keep` bounds how many extracted colors
/// take part in highlight selection (`None` admits all of them), `rotation`
/// cyclically shifts which hue lands in which highlight slot, and the three
/// fixed-point values pick the chroma of the base ramp and the chroma and
/// lightness of the highlights.
#[derive(Clone, Copy, Debug, PartialEq, Eq)]
pub struct PaletteSettings {
    pub style: PaletteStyle,
    pub keep: Option<usize>,
    pub rotation: usize,
    pub base_chroma: u32,
    pub hl_lightness: u32,
    pub hl_chroma: u32,
}

impl PaletteSettings {
    /// The constants each style starts from, before the caller overrides any
    /// of them.
    pub open spec fn spec_default_for(style: PaletteStyle) -> PaletteSettings {
        match style {
            PaletteStyle::Dark => PaletteSettings {
                style: PaletteStyle::Dark,
                keep: None,
                rotation: 0,
                base_chroma: 30,
                hl_chroma: 120,
                hl_lightness: 600,
            },
            PaletteStyle::Light => PaletteSettings {
                style: PaletteStyle::Light,
                keep: None,
                rotation: 0,
                base_chroma: 40,
                hl_chroma: 140,
                hl_lightness: 500,
            },
        }
    }

    /// The default settings for the given style.
    pub fn default_for(style: PaletteStyle) -> (s: Self)
        ensures
            s == Self::spec_default_for(style),
    {
        match style {
            PaletteStyle::Dark => Self {
                style: PaletteStyle::Dark,
                keep: None,
                rotation: 0,
                base_chroma: 30,
                hl_chroma: 120,
                hl_lightness: 600,
            },
            PaletteStyle::Light => Self {
                style: PaletteStyle::Light,
                keep: None,
                rotation: 0,
                base_chroma: 40,
                hl_chroma: 140,
                hl_lightness: 500,
            },
        }
    }
}

impl Default for PaletteSettings {
    fn default() -> (s: Self)
        ensures
            s == Self::spec_default_for(PaletteStyle::Dark),
    {
        Self::default_for(PaletteStyle::Dark)
    }
}

/// Settings of the color extractor. `segment_size` controls how finely the
/// hue circle is partitioned: pixels land in the bucket
/// `hue * segment_size / 360`, so a larger value makes narrower buckets.
#[derive(Clone, Copy, Debug, PartialEq, Eq, Structural)]
pub struct ParseColorsSettings {
    pub segment_size: u32,
}

impl Default for ParseColorsSettings {
    fn default() -> (s: Self)
        ensures
            s.segment_size == 16,
    {
        Self { segment_size: 16 }
    }
}

} // verus!
