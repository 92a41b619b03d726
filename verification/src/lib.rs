//! Rainbow text rendering: a fixed-point spectrum mapper that turns a
//! position along a visible-light-like domain into an RGB color, and a
//! renderer that assigns a color to each character of a text.

pub mod fixed;
pub mod render;
pub mod spectrum;
