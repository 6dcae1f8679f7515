//! Desk packing for rectangular rooms: closed-form tiling patterns, the
//! adapters that mirror and turn them, the selection among competing
//! strategies, and an independent verifier for labeled grids.

pub mod grid;
pub mod counting;
pub mod pattern;
pub mod input;
pub mod text;
pub mod labels;
pub mod levels;
