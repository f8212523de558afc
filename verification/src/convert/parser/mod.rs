//! The orchestrator: reads a document and derives the elements of one kind
//! from it.

pub mod actions;
pub mod meshes;
pub mod skeletons;

use crate::convert::action::Action;
use crate::convert::format::document::{Document, DocumentModel};
use crate::convert::format::reader::{document_of, read, Failed};
use crate::convert::format::xml::xml_events;
use crate::convert::mesh::{IndexOverflow, Mesh};
use crate::convert::numeric::{pure_numerics, Numerics};
use crate::convert::skeleton::{Skeleton, ToManyBones};
use crate::convert::target::Target;
use actions::{actions_result, parse_actions};
use meshes::{meshes_result, parse_meshes};
use skeletons::{parse_skeletons, skeletons_result};
use vstd::prelude::*;
use vstd::string::StringSliceAdditionalSpecFns;

verus! {

/// One derived asset under the name of what it was derived from.
pub struct Element {
    pub name: String,
    pub val: Value,
}

/// A derived asset.
pub enum Value {
    Mesh(Mesh),
    Skeleton(Skeleton),
    Action(Action),
}

/// Why nothing could be derived.
#[derive(Debug)]
pub enum Error {
    /// The document could not be read.
    Document(Failed),
    /// A geometry names no input for its vertices.
    NoVertices,
    /// A geometry names no input for its texture coordinates.
    NoTextureMap,
    /// An index or offset points outside its array.
    Index,
    /// The matrix of a joint does not hold sixteen numbers.
    MatSize,
    /// The arrays of an animation differ in length.
    ArrayLen,
    /// The id of an animation names no bone and channel.
    AnimationId,
    /// A node is neither a plain node nor a joint.
    UndefinedNode(String),
    /// A mesh has too many vertices.
    IndexOverflow(IndexOverflow),
    /// A skeleton has too many bones.
    ToManyBones(ToManyBones),
}

/// What an assembler can fail with.
pub enum ErrorModel {
    NoVertices,
    NoTextureMap,
    Index,
    MatSize,
    ArrayLen,
    AnimationId,
    UndefinedNode(Seq<char>),
    IndexOverflow,
    ToManyBones,
}

impl Error {
    /// Whether this is the failure `model` of an assembler.
    pub open spec fn is_model(self, model: ErrorModel) -> bool {
        match (self, model) {
            (Error::NoVertices, ErrorModel::NoVertices) => true,
            (Error::NoTextureMap, ErrorModel::NoTextureMap) => true,
            (Error::Index, ErrorModel::Index) => true,
            (Error::MatSize, ErrorModel::MatSize) => true,
            (Error::ArrayLen, ErrorModel::ArrayLen) => true,
            (Error::AnimationId, ErrorModel::AnimationId) => true,
            (Error::UndefinedNode(ty), ErrorModel::UndefinedNode(chars)) => ty@ == chars,
            (Error::IndexOverflow(_), ErrorModel::IndexOverflow) => true,
            (Error::ToManyBones(_), ErrorModel::ToManyBones) => true,
            _ => false,
        }
    }
}

/// `r` is what the document `doc` gives for the target `target`.
pub open spec fn derived<N: Numerics>(
    n: &N,
    doc: DocumentModel,
    target: Target,
    r: Result<Vec<Element>, Error>,
) -> bool {
    match target {
        Target::Mesh => meshes_result(n, doc.geometry, r),
        Target::Skeleton => skeletons_result(n, doc.nodes, r),
        Target::Action => actions_result(n, doc.animations, r),
    }
}

/// Derives the elements of one kind from a document that has been read.
pub fn assemble<N: Numerics>(doc: &Document, target: Target, n: &N) -> (r: Result<
    Vec<Element>,
    Error,
>)
    requires
        pure_numerics(n),
    ensures
        derived(n, doc@, target, r),
        !(r matches Err(Error::Document(_))),
{
    match target {
        Target::Mesh => parse_meshes(doc, n),
        Target::Skeleton => parse_skeletons(doc, n),
        Target::Action => parse_actions(doc, n),
    }
}

/// Reads a document and derives the elements of one kind from it.
///
/// A document that cannot be read is reported as `Error::Document`, with
/// the failure and the line that `read` gives. Else the result is what
/// `assemble` gives for the document that was read.
pub fn parse<N: Numerics>(src: &str, target: Target, n: &N) -> (r: Result<Vec<Element>, Error>)
    requires
        pure_numerics(n),
        src.spec_bytes().len() < usize::MAX,
    ensures
        match document_of(n, src.spec_bytes(), xml_events(src@)) {
            Err((e, line)) => r matches Err(Error::Document(failed)) && failed.err@ == e
                && failed.line == line,
            Ok(doc) => derived(n, doc, target, r) && !(r matches Err(Error::Document(_))),
        },
{
    let doc = match read(src, n) {
        Ok(doc) => doc,
        Err(failed) => {
            return Err(Error::Document(failed));
        },
    };
    assemble(&doc, target, n)
}

} // verus!
