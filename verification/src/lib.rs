//! Derive a fixed 24-entry terminal color palette (a Base24 scheme) from the
//! dominant colors of an image.
//!
//! The pipeline has two stages. [`parse_colors`] turns a buffer of
//! already-converted pixels into a short ranked list of dominant colors, by
//! discarding low-chroma pixels and clustering the rest into hue buckets.
//! [`generate_palette`] maps that list, together with a handful of style
//! parameters, onto the 24 canonical Base24 slots.
//!
//! All color math happens in a fixed-point rendering of the Oklch color
//! space; converting pixels into and out of that space is the caller's
//! concern, as is writing the finished scheme to disk.

pub mod color;
pub mod compose;
pub mod extract;
pub mod hex;
pub mod settings;
pub mod sorting;

pub use color::{color_array, Color};
pub use compose::{generate_palette, style_from_colors, Base24Style, PaletteError};
pub use extract::parse_colors;
pub use hex::{hex_to_rgb, rgb_to_hex, slot_key};
pub use settings::{PaletteSettings, PaletteStyle, ParseColorsSettings};
