//! Colours and palettes.

pub mod color;
pub mod palette;
pub mod tools;

pub use color::{Color, ParseError};
pub use tools::{collect, repaint, Error, RepaintMode};
