//! The records that the reader produces, and what each of them holds.

use vstd::prelude::*;

verus! {

/// The views of a sequence of values.
pub open spec fn views<T: View>(s: Seq<T>) -> Seq<T::V> {
    s.map_values(|x: T| x@)
}

/// The views of a sequence that grew by one are the views grown by one.
pub proof fn lemma_views_push<T: View>(s: Seq<T>, x: T)
    ensures
        views(s.push(x)) == views(s).push(x@),
{
    assert(views(s.push(x)) =~= views(s).push(x@));
}

/// The views of a sequence without its last are the views without the last.
pub proof fn lemma_views_drop_last<T: View>(s: Seq<T>)
    requires
        s.len() > 0,
    ensures
        views(s.drop_last()) == views(s).drop_last(),
        views(s).last() == s.last()@,
{
    assert(views(s.drop_last()) =~= views(s).drop_last());
}

/// How an animation moves from one key to the next, as the document names it.
#[derive(Clone, Copy, Debug)]
pub enum Name {
    Linear,
    Bezier,
}

impl View for Name {
    type V = Name;

    open spec fn view(&self) -> Name {
        *self
    }
}

/// A named array of numbers or of interpolation names.
#[derive(Debug)]
pub struct Source {
    pub id: String,
    pub floats: Vec<u32>,
    pub names: Vec<Name>,
}

pub struct SourceModel {
    pub id: Seq<char>,
    pub floats: Seq<u32>,
    pub names: Seq<Name>,
}

impl View for Source {
    type V = SourceModel;

    open spec fn view(&self) -> SourceModel {
        SourceModel { id: self.id@, floats: self.floats@, names: self.names@ }
    }
}

/// Which slot of an interleaved index chunk belongs to which source.
#[derive(Debug)]
pub struct Input {
    pub source: String,
    pub offset: usize,
}

pub struct InputModel {
    pub source: Seq<char>,
    pub offset: usize,
}

impl View for Input {
    type V = InputModel;

    open spec fn view(&self) -> InputModel {
        InputModel { source: self.source@, offset: self.offset }
    }
}

/// The raw index stream of a geometry and the inputs that explain it.
#[derive(Debug)]
pub struct Triangles {
    pub indxs: Vec<u32>,
    pub inputs: Vec<Input>,
}

pub struct TrianglesModel {
    pub indxs: Seq<u32>,
    pub inputs: Seq<InputModel>,
}

impl View for Triangles {
    type V = TrianglesModel;

    open spec fn view(&self) -> TrianglesModel {
        TrianglesModel { indxs: self.indxs@, inputs: views(self.inputs@) }
    }
}

/// One `<geometry>`.
#[derive(Debug)]
pub struct Geometry {
    pub id: String,
    pub name: String,
    pub sources: Vec<Source>,
    pub triangles: Triangles,
}

pub struct GeometryModel {
    pub id: Seq<char>,
    pub name: Seq<char>,
    pub sources: Seq<SourceModel>,
    pub triangles: TrianglesModel,
}

impl View for Geometry {
    type V = GeometryModel;

    open spec fn view(&self) -> GeometryModel {
        GeometryModel {
            id: self.id@,
            name: self.name@,
            sources: views(self.sources@),
            triangles: self.triangles@,
        }
    }
}

/// One `<node>` of the scene graph with the nodes below it. The matrix is a
/// 4x4 transform, column after column; it is empty until its text has been
/// read.
#[derive(Debug)]
pub struct Node {
    pub id: String,
    pub name: String,
    pub ty: String,
    pub mat: Vec<u32>,
    pub children: Vec<Node>,
}

pub struct NodeModel {
    pub id: Seq<char>,
    pub name: Seq<char>,
    pub ty: Seq<char>,
    pub mat: Seq<u32>,
    pub children: Seq<NodeModel>,
}

/// What a node holds, with all that hangs below it.
pub open spec fn node_model(node: Node) -> NodeModel
    decreases node,
{
    NodeModel {
        id: node.id@,
        name: node.name@,
        ty: node.ty@,
        mat: node.mat@,
        children: Seq::new(
            node.children@.len(),
            |i: int|
                if 0 <= i < node.children@.len() {
                    node_model(node.children@[i])
                } else {
                    arbitrary()
                },
        ),
    }
}

impl View for Node {
    type V = NodeModel;

    open spec fn view(&self) -> NodeModel {
        node_model(*self)
    }
}

/// The children of a node's view are the views of its children.
pub proof fn lemma_node_children(node: Node)
    ensures
        node@.children == views(node.children@),
{
    assert(node@.children =~= views(node.children@));
}

/// One `<animation>`.
#[derive(Debug)]
pub struct Animation {
    pub id: String,
    pub name: String,
    pub sources: Vec<Source>,
}

pub struct AnimationModel {
    pub id: Seq<char>,
    pub name: Seq<char>,
    pub sources: Seq<SourceModel>,
}

impl View for Animation {
    type V = AnimationModel;

    open spec fn view(&self) -> AnimationModel {
        AnimationModel { id: self.id@, name: self.name@, sources: views(self.sources@) }
    }
}

/// What one pass over a document has found.
#[derive(Debug)]
pub struct Document {
    pub geometry: Vec<Geometry>,
    pub nodes: Vec<Node>,
    pub animations: Vec<Animation>,
}

pub struct DocumentModel {
    pub geometry: Seq<GeometryModel>,
    pub nodes: Seq<NodeModel>,
    pub animations: Seq<AnimationModel>,
}

impl View for Document {
    type V = DocumentModel;

    open spec fn view(&self) -> DocumentModel {
        DocumentModel {
            geometry: views(self.geometry@),
            nodes: views(self.nodes@),
            animations: views(self.animations@),
        }
    }
}

impl DocumentModel {
    /// The document in which nothing has been found.
    pub open spec fn empty() -> DocumentModel {
        DocumentModel { geometry: Seq::empty(), nodes: Seq::empty(), animations: Seq::empty() }
    }
}

impl Default for Document {
    fn default() -> (r: Document)
        ensures
            r@ == DocumentModel::empty(),
    {
        let r = Document { geometry: Vec::new(), nodes: Vec::new(), animations: Vec::new() };
        proof {
            assert(views(r.geometry@) =~= Seq::empty());
            assert(views(r.nodes@) =~= Seq::empty());
            assert(views(r.animations@) =~= Seq::empty());
        }
        r
    }
}

} // verus!
