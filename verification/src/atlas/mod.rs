//! Texture atlases: many sprites packed into one square image.

pub mod atlas;
pub mod indent;
pub mod pack;
pub mod sprites;

pub use atlas::{make, Atlas, Error, Parameters, SpriteMap};
pub use indent::{Indent, TooLarge};
pub use sprites::ImageData;
