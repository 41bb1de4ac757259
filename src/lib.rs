//! Recolors pixels to the closest entry of a brightness-sorted palette.

pub mod cli;
pub mod color;
pub mod converter;
pub mod hex;
pub mod parse_error;
pub mod rgba;
