//! What to derive from a document.

use crate::convert::strings::same;
use vstd::prelude::*;

verus! {

/// The kind of element to derive.
#[derive(Clone, Copy, Debug, PartialEq, Eq)]
pub enum Target {
    Mesh,
    Skeleton,
    Action,
}

/// A word that names no target.
#[derive(Clone, Copy, Debug, PartialEq, Eq)]
pub struct Unknown;

/// The target that a word names.
pub open spec fn target_named(word: Seq<char>) -> Option<Target> {
    if word == "mesh"@ {
        Some(Target::Mesh)
    } else if word == "skeleton"@ {
        Some(Target::Skeleton)
    } else if word == "action"@ {
        Some(Target::Action)
    } else {
        None
    }
}

impl Target {
    /// Reads a target from its name: `mesh`, `skeleton` or `action`.
    pub fn from_str(s: &str) -> (r: Result<Target, Unknown>)
        ensures
            match r {
                Ok(target) => target_named(s@) == Some(target),
                Err(_) => target_named(s@).is_none(),
            },
    {
        if same(s, "mesh") {
            Ok(Target::Mesh)
        } else if same(s, "skeleton") {
            Ok(Target::Skeleton)
        } else if same(s, "action") {
            Ok(Target::Action)
        } else {
            Err(Unknown)
        }
    }
}

} // verus!
