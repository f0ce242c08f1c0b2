//! Colorizes the parts of text lines that match a set of regular expressions.
//!
//! `pattern` compiles patterns and gives each one a color from a fixed palette;
//! `render` works out, for one line, which byte ranges are written in which
//! color.

pub mod palette;
pub mod pattern;
pub mod render;
