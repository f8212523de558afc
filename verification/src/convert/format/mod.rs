//! The document reader: a single pass over the XML events of an interchange
//! document that builds the geometries, the node forest and the animations
//! without a tree of the whole document.

pub mod document;
pub mod lines;
pub mod reader;
pub mod scanner;
pub mod xml;

pub use document::{Animation, Document, Geometry, Input, Name, Node, Source, Triangles};
pub use reader::{read, Failed};
pub use scanner::{Error, Scanner};
pub use xml::{Event, Tag};
