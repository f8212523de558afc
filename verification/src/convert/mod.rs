//! The asset extraction pipeline.

pub mod action;
pub mod format;
pub mod mesh;
pub mod numeric;
pub mod parser;
pub mod skeleton;
pub mod strings;
pub mod target;

pub use action::{Action, Keyframe};
pub use mesh::{IndexOverflow, Mesh, Vert};
pub use numeric::{Numerics, Pose};
pub use format::{read, Error as FormatError, Failed};
pub use parser::{parse, Element, Error, Value};
pub use skeleton::{Bone, Skeleton, ToManyBones};
pub use target::{Target, Unknown};
