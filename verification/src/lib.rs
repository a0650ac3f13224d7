//! A lightweight bitmap font library.
//!
//! A [`Font`] holds packed glyph bitmaps and a lookup table from character
//! codes to glyphs. [`Text`] and [`Character`] describe a string or a single
//! character placed by an [`Anchor`] point; the `renderer` module computes
//! which pixels a glyph sets and where each character of a line starts.

pub mod font;
pub mod geometry;
pub mod renderer;

pub use font::{Character, Font, GlyphEntry, Text, WithAnchor};
pub use geometry::{Anchor, Point};
