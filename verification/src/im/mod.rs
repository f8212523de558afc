//! Images of 8-bit samples: grey, RGB or RGBA, row after row.

pub mod codec;
pub mod image;

pub use codec::{decode_png, encode_png, Error};
pub use image::{Format, Image};
