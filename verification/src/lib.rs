//! Recognition of hand-drawn glyphs: connected regions of color in a raster
//! image are matched against a vocabulary of symbols by running a
//! two-dimensional finite-state machine over the pixel grid.

pub mod glyphdetect;
pub mod picture;
pub mod regex;
pub mod tokenizer;
