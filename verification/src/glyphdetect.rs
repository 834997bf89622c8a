//! The glyph recognition core: geometry, color classification, pixel grids,
//! connected-component extraction, and the two-dimensional finite-state
//! machine that matches glyph shapes.

pub mod color;
pub mod fsm;
pub mod glyph;
pub mod picture;
pub mod point;
