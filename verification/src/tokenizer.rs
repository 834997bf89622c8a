//! Token-level geometry helpers.

pub mod point;
