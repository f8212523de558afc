//! The state machine of the reader.
//!
//! The reader keeps a library mode, which says inside which `<library_*>`
//! section it stands, and a stack with one accumulator for each open tag of
//! interest. An opening tag pushes its accumulator; the closing tag pops it
//! and folds what it holds into the scope around it. Finished sources, indices
//! and inputs wait in side buffers until the geometry or animation that owns
//! them closes.
//!
//! What each event does to the state is written down as a function on models
//! (`opened`, `closed`, `emptied`, `texted`, `stepped`); the methods of
//! [`Scanner`] compute exactly these.

use super::document::{
    lemma_node_children, lemma_views_drop_last, lemma_views_push, views, Animation,
    AnimationModel, Document, DocumentModel, Geometry, GeometryModel, Input, InputModel, Name,
    Node, NodeModel, Source, SourceModel, Triangles, TrianglesModel,
};
use super::xml::{attribute_value, find_attribute, Event, EventModel, Tag, TagModel};
use crate::convert::numeric::{parse, parsed, pure_numerics, Numerics};
use crate::convert::strings::{
    parse_u32, parse_usize, parsed_u32, parsed_usize, same, split_whitespace, whitespace_tokens,
};
use vstd::prelude::*;

verus! {

/// Why a document could not be read.
#[derive(Debug)]
pub enum Error {
    /// A closing tag came while another element was open.
    UnexpectedClosingTag(String),
    /// The text of a matrix came outside a node.
    MatrixNotFound,
    /// A tag lacks an attribute that it must have.
    AttributeNotFound(String),
    /// A number could not be read.
    Parse(String),
    /// The text is no well-formed XML; the message is that of the XML reader.
    XmlError(String),
    /// An interpolation name is neither `LINEAR` nor `BEZIER`.
    Name(String),
    /// The text ends inside the element of this tag.
    UnexpectedEof(String),
}

pub enum ErrorModel {
    UnexpectedClosingTag(Seq<char>),
    MatrixNotFound,
    AttributeNotFound(Seq<char>),
    Parse(Seq<char>),
    XmlError(Seq<char>),
    Name(Seq<char>),
    UnexpectedEof(Seq<char>),
}

impl View for Error {
    type V = ErrorModel;

    open spec fn view(&self) -> ErrorModel {
        match self {
            Error::UnexpectedClosingTag(tag) => ErrorModel::UnexpectedClosingTag(tag@),
            Error::MatrixNotFound => ErrorModel::MatrixNotFound,
            Error::AttributeNotFound(name) => ErrorModel::AttributeNotFound(name@),
            Error::Parse(token) => ErrorModel::Parse(token@),
            Error::XmlError(message) => ErrorModel::XmlError(message@),
            Error::Name(token) => ErrorModel::Name(token@),
            Error::UnexpectedEof(tag) => ErrorModel::UnexpectedEof(tag@),
        }
    }
}

/// The section of the document that the reader stands in.
#[derive(Clone, Copy, Debug)]
pub enum Library {
    Outside,
    Geometries,
    VisualScenes,
    Animations,
}

impl Library {
    /// Sources and float arrays are read here.
    pub open spec fn holds_sources(self) -> bool {
        self is Geometries || self is Animations
    }
}

/// What an open tag has gathered so far.
#[derive(Debug)]
pub enum El {
    Geometry { id: String, name: String },
    Source { id: String },
    FloatArray { floats: Vec<u32> },
    Triangles { indxs: Vec<u32> },
    Node(Node),
    Mat,
    Animation { id: String, name: String },
    NameArray { names: Vec<Name> },
}

pub enum ElModel {
    Geometry { id: Seq<char>, name: Seq<char> },
    Source { id: Seq<char> },
    FloatArray { floats: Seq<u32> },
    Triangles { indxs: Seq<u32> },
    Node(NodeModel),
    Mat,
    Animation { id: Seq<char>, name: Seq<char> },
    NameArray { names: Seq<Name> },
}

impl View for El {
    type V = ElModel;

    open spec fn view(&self) -> ElModel {
        match self {
            El::Geometry { id, name } => ElModel::Geometry { id: id@, name: name@ },
            El::Source { id } => ElModel::Source { id: id@ },
            El::FloatArray { floats } => ElModel::FloatArray { floats: floats@ },
            El::Triangles { indxs } => ElModel::Triangles { indxs: indxs@ },
            El::Node(node) => ElModel::Node(node@),
            El::Mat => ElModel::Mat,
            El::Animation { id, name } => ElModel::Animation { id: id@, name: name@ },
            El::NameArray { names } => ElModel::NameArray { names: names@ },
        }
    }
}

/// The state of the reader between two events.
pub struct Scanner {
    library: Library,
    doc: Document,
    sources: Vec<Source>,
    indxs: Vec<u32>,
    inputs: Vec<Input>,
    stack: Vec<El>,
}

pub struct ScannerModel {
    pub library: Library,
    pub doc: DocumentModel,
    pub sources: Seq<SourceModel>,
    pub indxs: Seq<u32>,
    pub inputs: Seq<InputModel>,
    pub stack: Seq<ElModel>,
}

impl View for Scanner {
    type V = ScannerModel;

    closed spec fn view(&self) -> ScannerModel {
        ScannerModel {
            library: self.library,
            doc: self.doc@,
            sources: views(self.sources@),
            indxs: self.indxs@,
            inputs: views(self.inputs@),
            stack: views(self.stack@),
        }
    }
}

impl ScannerModel {
    /// The state before the first event.
    pub open spec fn start() -> ScannerModel {
        ScannerModel {
            library: Library::Outside,
            doc: DocumentModel::empty(),
            sources: Seq::empty(),
            indxs: Seq::empty(),
            inputs: Seq::empty(),
            stack: Seq::empty(),
        }
    }

    /// This state with one more accumulator on the stack.
    pub open spec fn push(self, el: ElModel) -> ScannerModel {
        ScannerModel { stack: self.stack.push(el), ..self }
    }

    /// This state without the top of the stack.
    pub open spec fn pop(self) -> ScannerModel {
        ScannerModel { stack: self.stack.drop_last(), ..self }
    }

    /// This state with another accumulator at the place `at` of the stack.
    pub open spec fn put(self, at: int, el: ElModel) -> ScannerModel {
        ScannerModel { stack: self.stack.update(at, el), ..self }
    }

    /// This state in another section.
    pub open spec fn enter(self, library: Library) -> ScannerModel {
        ScannerModel { library, ..self }
    }

    /// Whether the top of the stack is there.
    pub open spec fn has_top(self) -> bool {
        self.stack.len() > 0
    }
}

/// The value of an attribute that a tag must have.
pub open spec fn required(tag: TagModel, name: Seq<char>) -> Result<Seq<char>, ErrorModel> {
    match attribute_value(tag.attributes, name) {
        Some(value) => Ok(value),
        None => Err(ErrorModel::AttributeNotFound(name)),
    }
}

/// The value of an attribute that must be there and must be a count.
pub open spec fn required_count(tag: TagModel, name: Seq<char>) -> Result<usize, ErrorModel> {
    match required(tag, name) {
        Ok(value) => match parsed_usize(value) {
            Some(count) => Ok(count),
            None => Err(ErrorModel::Parse(value)),
        },
        Err(e) => Err(e),
    }
}

/// The numbers that `n` reads from the tokens, or the first token that is no
/// number.
pub open spec fn floats_of<N: Numerics>(n: &N, tokens: Seq<Seq<char>>) -> Result<
    Seq<u32>,
    Seq<char>,
>
    decreases tokens.len(),
{
    if tokens.len() == 0 {
        Ok(Seq::empty())
    } else {
        match floats_of(n, tokens.drop_last()) {
            Ok(head) => match parsed(n, tokens.last()) {
                Some(x) => Ok(head.push(x)),
                None => Err(tokens.last()),
            },
            Err(token) => Err(token),
        }
    }
}

/// The indices that the tokens spell, or the first token that is no index.
pub open spec fn indices_of(tokens: Seq<Seq<char>>) -> Result<Seq<u32>, Seq<char>>
    decreases tokens.len(),
{
    if tokens.len() == 0 {
        Ok(Seq::empty())
    } else {
        match indices_of(tokens.drop_last()) {
            Ok(head) => match parsed_u32(tokens.last()) {
                Some(x) => Ok(head.push(x)),
                None => Err(tokens.last()),
            },
            Err(token) => Err(token),
        }
    }
}

/// The interpolation that a token names.
pub open spec fn name_of(token: Seq<char>) -> Option<Name> {
    if token == "LINEAR"@ {
        Some(Name::Linear)
    } else if token == "BEZIER"@ {
        Some(Name::Bezier)
    } else {
        None
    }
}

/// The interpolations that the tokens name, or the first token that names
/// none.
pub open spec fn names_of(tokens: Seq<Seq<char>>) -> Result<Seq<Name>, Seq<char>>
    decreases tokens.len(),
{
    if tokens.len() == 0 {
        Ok(Seq::empty())
    } else {
        match names_of(tokens.drop_last()) {
            Ok(head) => match name_of(tokens.last()) {
                Some(x) => Ok(head.push(x)),
                None => Err(tokens.last()),
            },
            Err(token) => Err(token),
        }
    }
}

/// The state after an opening tag.
pub open spec fn opened(s: ScannerModel, tag: TagModel) -> Result<ScannerModel, ErrorModel> {
    if tag.name == "library_geometries"@ {
        Ok(s.enter(Library::Geometries))
    } else if tag.name == "library_visual_scenes"@ {
        Ok(s.enter(Library::VisualScenes))
    } else if tag.name == "library_animations"@ {
        Ok(s.enter(Library::Animations))
    } else if tag.name == "geometry"@ {
        if s.library is Geometries {
            match (required(tag, "id"@), required(tag, "name"@)) {
                (Err(e), _) => Err(e),
                (Ok(_), Err(e)) => Err(e),
                (Ok(id), Ok(name)) => Ok(s.push(ElModel::Geometry { id, name })),
            }
        } else {
            Ok(s)
        }
    } else if tag.name == "source"@ {
        if s.library.holds_sources() {
            match required(tag, "id"@) {
                Err(e) => Err(e),
                Ok(id) => Ok(s.push(ElModel::Source { id })),
            }
        } else {
            Ok(s)
        }
    } else if tag.name == "float_array"@ {
        if s.library.holds_sources() {
            match required_count(tag, "count"@) {
                Err(e) => Err(e),
                Ok(_) => Ok(s.push(ElModel::FloatArray { floats: Seq::empty() })),
            }
        } else {
            Ok(s)
        }
    } else if tag.name == "Name_array"@ {
        if s.library is Animations {
            match required_count(tag, "count"@) {
                Err(e) => Err(e),
                Ok(_) => Ok(s.push(ElModel::NameArray { names: Seq::empty() })),
            }
        } else {
            Ok(s)
        }
    } else if tag.name == "triangles"@ {
        if s.library is Geometries {
            match required_count(tag, "count"@) {
                Err(e) => Err(e),
                Ok(_) => Ok(s.push(ElModel::Triangles { indxs: Seq::empty() })),
            }
        } else {
            Ok(s)
        }
    } else if tag.name == "node"@ {
        if s.library is VisualScenes {
            match (required(tag, "id"@), required(tag, "name"@), required(tag, "type"@)) {
                (Err(e), _, _) => Err(e),
                (Ok(_), Err(e), _) => Err(e),
                (Ok(_), Ok(_), Err(e)) => Err(e),
                (Ok(id), Ok(name), Ok(ty)) => Ok(
                    s.push(
                        ElModel::Node(
                            NodeModel {
                                id,
                                name,
                                ty,
                                mat: Seq::empty(),
                                children: Seq::empty(),
                            },
                        ),
                    ),
                ),
            }
        } else {
            Ok(s)
        }
    } else if tag.name == "matrix"@ {
        if s.library is VisualScenes {
            Ok(s.push(ElModel::Mat))
        } else {
            Ok(s)
        }
    } else if tag.name == "animation"@ {
        if s.library is Animations {
            match (required(tag, "id"@), required(tag, "name"@)) {
                (Err(e), _) => Err(e),
                (Ok(_), Err(e)) => Err(e),
                (Ok(id), Ok(name)) => Ok(s.push(ElModel::Animation { id, name })),
            }
        } else {
            Ok(s)
        }
    } else {
        Ok(s)
    }
}

/// The state after a closing tag.
pub open spec fn closed(s: ScannerModel, name: Seq<char>) -> Result<ScannerModel, ErrorModel> {
    let mismatch = Err(ErrorModel::UnexpectedClosingTag(name));
    if name == "library_geometries"@ || name == "library_visual_scenes"@ || name
        == "library_animations"@ {
        Ok(s.enter(Library::Outside))
    } else if name == "geometry"@ {
        if !(s.library is Geometries) {
            Ok(s)
        } else if s.has_top() && s.stack.last() is Geometry {
            let geometry = GeometryModel {
                id: s.stack.last()->Geometry_id,
                name: s.stack.last()->Geometry_name,
                sources: s.sources,
                triangles: TrianglesModel { indxs: s.indxs, inputs: s.inputs },
            };
            Ok(
                ScannerModel {
                    doc: DocumentModel { geometry: s.doc.geometry.push(geometry), ..s.doc },
                    sources: Seq::empty(),
                    indxs: Seq::empty(),
                    inputs: Seq::empty(),
                    ..s.pop()
                },
            )
        } else {
            mismatch
        }
    } else if name == "source"@ {
        if !s.library.holds_sources() {
            Ok(s)
        } else if s.has_top() && s.stack.last() is Source {
            let id = s.stack.last()->Source_id;
            if s.sources.len() > 0 {
                Ok(
                    ScannerModel {
                        sources: s.sources.update(
                            s.sources.len() - 1,
                            SourceModel { id, ..s.sources.last() },
                        ),
                        ..s.pop()
                    },
                )
            } else {
                Ok(s.pop())
            }
        } else {
            mismatch
        }
    } else if name == "float_array"@ {
        if !s.library.holds_sources() {
            Ok(s)
        } else if s.has_top() && s.stack.last() is FloatArray {
            let source = SourceModel {
                id: Seq::empty(),
                floats: s.stack.last()->floats,
                names: Seq::empty(),
            };
            Ok(ScannerModel { sources: s.sources.push(source), ..s.pop() })
        } else {
            mismatch
        }
    } else if name == "Name_array"@ {
        if !(s.library is Animations) {
            Ok(s)
        } else if s.has_top() && s.stack.last() is NameArray {
            let source = SourceModel {
                id: Seq::empty(),
                floats: Seq::empty(),
                names: s.stack.last()->names,
            };
            Ok(ScannerModel { sources: s.sources.push(source), ..s.pop() })
        } else {
            mismatch
        }
    } else if name == "triangles"@ {
        if !(s.library is Geometries) {
            Ok(s)
        } else if s.has_top() && s.stack.last() is Triangles {
            Ok(ScannerModel { indxs: s.stack.last()->indxs, ..s.pop() })
        } else {
            mismatch
        }
    } else if name == "node"@ {
        if !(s.library is VisualScenes) {
            Ok(s)
        } else if s.has_top() && s.stack.last() is Node {
            let node = s.stack.last()->Node_0;
            let rest = s.pop();
            if rest.has_top() && rest.stack.last() is Node {
                let parent = rest.stack.last()->Node_0;
                Ok(
                    rest.put(
                        rest.stack.len() - 1,
                        ElModel::Node(
                            NodeModel { children: parent.children.push(node), ..parent },
                        ),
                    ),
                )
            } else {
                Ok(
                    ScannerModel {
                        doc: DocumentModel { nodes: rest.doc.nodes.push(node), ..rest.doc },
                        ..rest
                    },
                )
            }
        } else {
            mismatch
        }
    } else if name == "matrix"@ {
        if !(s.library is VisualScenes) {
            Ok(s)
        } else if s.has_top() && s.stack.last() is Mat {
            Ok(s.pop())
        } else {
            mismatch
        }
    } else if name == "animation"@ {
        if !(s.library is Animations) {
            Ok(s)
        } else if s.has_top() && s.stack.last() is Animation {
            let animation = AnimationModel {
                id: s.stack.last()->Animation_id,
                name: s.stack.last()->Animation_name,
                sources: s.sources,
            };
            Ok(
                ScannerModel {
                    doc: DocumentModel {
                        animations: s.doc.animations.push(animation),
                        ..s.doc
                    },
                    sources: Seq::empty(),
                    ..s.pop()
                },
            )
        } else {
            mismatch
        }
    } else {
        Ok(s)
    }
}

/// The state after a self-closing tag: inside `<triangles>` it describes an
/// input, elsewhere it means nothing.
pub open spec fn emptied(s: ScannerModel, tag: TagModel) -> Result<ScannerModel, ErrorModel> {
    if s.has_top() && s.stack.last() is Triangles {
        match (required(tag, "source"@), required_count(tag, "offset"@)) {
            (Err(e), _) => Err(e),
            (Ok(_), Err(e)) => Err(e),
            (Ok(source), Ok(offset)) => Ok(
                ScannerModel { inputs: s.inputs.push(InputModel { source, offset }), ..s },
            ),
        }
    } else {
        Ok(s)
    }
}

/// The state after a text: the top of the stack alone says where its tokens
/// go. The text of a matrix goes to the node below the top.
pub open spec fn texted<N: Numerics>(n: &N, s: ScannerModel, text: Seq<char>) -> Result<
    ScannerModel,
    ErrorModel,
> {
    let tokens = whitespace_tokens(text);
    let top = s.stack.len() - 1;
    if !s.has_top() {
        Ok(s)
    } else {
        match s.stack.last() {
            ElModel::FloatArray { floats } => match floats_of(n, tokens) {
                Ok(more) => Ok(s.put(top, ElModel::FloatArray { floats: floats + more })),
                Err(token) => Err(ErrorModel::Parse(token)),
            },
            ElModel::Triangles { indxs } => match indices_of(tokens) {
                Ok(more) => Ok(s.put(top, ElModel::Triangles { indxs: indxs + more })),
                Err(token) => Err(ErrorModel::Parse(token)),
            },
            ElModel::Mat => if s.stack.len() >= 2 && s.stack[top - 1] is Node {
                let node = s.stack[top - 1]->Node_0;
                match floats_of(n, tokens) {
                    Ok(more) => Ok(
                        s.put(top - 1, ElModel::Node(NodeModel { mat: node.mat + more, ..node })),
                    ),
                    Err(token) => Err(ErrorModel::Parse(token)),
                }
            } else {
                Err(ErrorModel::MatrixNotFound)
            },
            ElModel::NameArray { names } => match names_of(tokens) {
                Ok(more) => Ok(s.put(top, ElModel::NameArray { names: names + more })),
                Err(token) => Err(ErrorModel::Name(token)),
            },
            _ => Ok(s),
        }
    }
}

/// The state after one event.
pub open spec fn stepped<N: Numerics>(n: &N, s: ScannerModel, event: EventModel) -> Result<
    ScannerModel,
    ErrorModel,
> {
    match event {
        EventModel::Start(tag) => opened(s, tag),
        EventModel::End(name) => closed(s, name),
        EventModel::Empty(tag) => emptied(s, tag),
        EventModel::Text(text) => texted(n, s, text),
        EventModel::Eof => Ok(s),
        EventModel::Other => Ok(s),
    }
}

/// The state after a run of events, the first failure ending the run.
pub open spec fn scanned<N: Numerics>(n: &N, events: Seq<EventModel>) -> Result<
    ScannerModel,
    ErrorModel,
>
    decreases events.len(),
{
    if events.len() == 0 {
        Ok(ScannerModel::start())
    } else {
        match scanned(n, events.drop_last()) {
            Ok(s) => stepped(n, s, events.last()),
            Err(e) => Err(e),
        }
    }
}

/// The tag of the element that an accumulator stands for.
pub open spec fn tag_of(el: ElModel) -> Seq<char> {
    match el {
        ElModel::Geometry { .. } => "geometry"@,
        ElModel::Source { .. } => "source"@,
        ElModel::FloatArray { .. } => "float_array"@,
        ElModel::Triangles { .. } => "triangles"@,
        ElModel::Node(_) => "node"@,
        ElModel::Mat => "matrix"@,
        ElModel::Animation { .. } => "animation"@,
        ElModel::NameArray { .. } => "Name_array"@,
    }
}

/// What the state comes to at the end of the text: the document, or a
/// failure where an element is still open; the failure names the innermost
/// such element.
pub open spec fn finished(s: ScannerModel) -> Result<DocumentModel, ErrorModel> {
    if s.has_top() {
        Err(ErrorModel::UnexpectedEof(tag_of(s.stack.last())))
    } else {
        Ok(s.doc)
    }
}

/// What an outcome holds.
pub open spec fn outcome(r: Result<Scanner, Error>) -> Result<ScannerModel, ErrorModel> {
    match r {
        Ok(s) => Ok(s@),
        Err(e) => Err(e@),
    }
}

/// A prefix of the tokens that is one longer ends with the next token.
proof fn lemma_take_next<T>(s: Seq<T>, k: int)
    requires
        0 <= k < s.len(),
    ensures
        s.take(k + 1).drop_last() == s.take(k),
        s.take(k + 1).last() == s[k],
{
    assert(s.take(k + 1).drop_last() =~= s.take(k));
}

impl Name {
    /// The interpolation that `s` names.
    pub fn from_str(s: &str) -> (r: Result<Name, Error>)
        ensures
            match r {
                Ok(name) => name_of(s@) == Some(name),
                Err(e) => name_of(s@).is_none() && e@ == ErrorModel::Name(s@),
            },
    {
        if same(s, "LINEAR") {
            Ok(Name::Linear)
        } else if same(s, "BEZIER") {
            Ok(Name::Bezier)
        } else {
            Err(Error::Name(s.to_owned()))
        }
    }
}

/// Looks up an attribute that the tag must have.
fn attr(tag: &Tag, name: &str) -> (r: Result<String, Error>)
    ensures
        match r {
            Ok(value) => required(tag@, name@) == Ok::<Seq<char>, ErrorModel>(value@),
            Err(e) => required(tag@, name@) == Err::<Seq<char>, ErrorModel>(e@),
        },
{
    match find_attribute(tag.attributes.as_str(), name) {
        Some(value) => Ok(value),
        None => Err(Error::AttributeNotFound(name.to_owned())),
    }
}

/// Looks up an attribute that the tag must have and reads it as a count.
fn attr_count(tag: &Tag, name: &str) -> (r: Result<usize, Error>)
    ensures
        match r {
            Ok(count) => required_count(tag@, name@) == Ok::<usize, ErrorModel>(count),
            Err(e) => required_count(tag@, name@) == Err::<usize, ErrorModel>(e@),
        },
{
    let value = attr(tag, name)?;
    match parse_usize(value.as_str()) {
        Some(count) => Ok(count),
        None => Err(Error::Parse(value)),
    }
}

/// Reads the numbers of a text onto the end of `out`.
fn read_floats<N: Numerics>(n: &N, text: &str, out: &mut Vec<u32>) -> (r: Result<(), Error>)
    requires
        pure_numerics(n),
    ensures
        match floats_of(n, whitespace_tokens(text@)) {
            Ok(more) => r is Ok && final(out)@ == old(out)@ + more,
            Err(token) => r is Err && r->Err_0@ == ErrorModel::Parse(token),
        },
{
    let tokens = split_whitespace(text);
    let ghost all = whitespace_tokens(text@);
    let mut i: usize = 0;
    proof {
        assert(out@ =~= old(out)@ + Seq::<u32>::empty());
    }
    while i < tokens.len()
        invariant
            0 <= i <= tokens@.len(),
            pure_numerics(n),
            all == whitespace_tokens(text@),
            tokens@.len() == all.len(),
            forall|k: int| 0 <= k < tokens@.len() ==> (#[trigger] tokens@[k])@ == all[k],
            floats_of(n, all.take(i as int)) is Ok,
            out@ == old(out)@ + floats_of(n, all.take(i as int))->Ok_0,
        decreases tokens@.len() - i,
    {
        proof {
            lemma_take_next(all, i as int);
        }
        let ghost head = floats_of(n, all.take(i as int))->Ok_0;
        match parse(n, tokens[i].as_str()) {
            Some(x) => {
                out.push(x);
                proof {
                    assert(out@ =~= old(out)@ + head.push(x));
                }
            },
            None => {
                proof {
                    lemma_floats_fail(n, all, i as int + 1);
                }
                return Err(Error::Parse(tokens[i].clone()));
            },
        }
        i = i + 1;
    }
    proof {
        assert(all.take(i as int) =~= all);
    }
    Ok(())
}

/// A prefix of the tokens that fails makes the whole fail at the same token.
proof fn lemma_floats_fail<N: Numerics>(n: &N, tokens: Seq<Seq<char>>, k: int)
    requires
        0 <= k <= tokens.len(),
        floats_of(n, tokens.take(k)) is Err,
    ensures
        floats_of(n, tokens) == floats_of(n, tokens.take(k)),
    decreases tokens.len() - k,
{
    if k == tokens.len() {
        assert(tokens.take(k) =~= tokens);
    } else {
        lemma_take_next(tokens, k);
        lemma_floats_fail(n, tokens, k + 1);
    }
}

/// Reads the indices of a text onto the end of `out`.
fn read_indices(text: &str, out: &mut Vec<u32>) -> (r: Result<(), Error>)
    ensures
        match indices_of(whitespace_tokens(text@)) {
            Ok(more) => r is Ok && final(out)@ == old(out)@ + more,
            Err(token) => r is Err && r->Err_0@ == ErrorModel::Parse(token),
        },
{
    let tokens = split_whitespace(text);
    let ghost all = whitespace_tokens(text@);
    let mut i: usize = 0;
    proof {
        assert(out@ =~= old(out)@ + Seq::<u32>::empty());
    }
    while i < tokens.len()
        invariant
            0 <= i <= tokens@.len(),
            all == whitespace_tokens(text@),
            tokens@.len() == all.len(),
            forall|k: int| 0 <= k < tokens@.len() ==> (#[trigger] tokens@[k])@ == all[k],
            indices_of(all.take(i as int)) is Ok,
            out@ == old(out)@ + indices_of(all.take(i as int))->Ok_0,
        decreases tokens@.len() - i,
    {
        proof {
            lemma_take_next(all, i as int);
        }
        let ghost head = indices_of(all.take(i as int))->Ok_0;
        match parse_u32(tokens[i].as_str()) {
            Some(x) => {
                out.push(x);
                proof {
                    assert(out@ =~= old(out)@ + head.push(x));
                }
            },
            None => {
                proof {
                    lemma_indices_fail(all, i as int + 1);
                }
                return Err(Error::Parse(tokens[i].clone()));
            },
        }
        i = i + 1;
    }
    proof {
        assert(all.take(i as int) =~= all);
    }
    Ok(())
}

/// A prefix of the tokens that fails makes the whole fail at the same token.
proof fn lemma_indices_fail(tokens: Seq<Seq<char>>, k: int)
    requires
        0 <= k <= tokens.len(),
        indices_of(tokens.take(k)) is Err,
    ensures
        indices_of(tokens) == indices_of(tokens.take(k)),
    decreases tokens.len() - k,
{
    if k == tokens.len() {
        assert(tokens.take(k) =~= tokens);
    } else {
        lemma_take_next(tokens, k);
        lemma_indices_fail(tokens, k + 1);
    }
}

/// Reads the interpolation names of a text onto the end of `out`.
fn read_names(text: &str, out: &mut Vec<Name>) -> (r: Result<(), Error>)
    ensures
        match names_of(whitespace_tokens(text@)) {
            Ok(more) => r is Ok && final(out)@ == old(out)@ + more,
            Err(token) => r is Err && r->Err_0@ == ErrorModel::Name(token),
        },
{
    let tokens = split_whitespace(text);
    let ghost all = whitespace_tokens(text@);
    let mut i: usize = 0;
    proof {
        assert(out@ =~= old(out)@ + Seq::<Name>::empty());
    }
    while i < tokens.len()
        invariant
            0 <= i <= tokens@.len(),
            all == whitespace_tokens(text@),
            tokens@.len() == all.len(),
            forall|k: int| 0 <= k < tokens@.len() ==> (#[trigger] tokens@[k])@ == all[k],
            names_of(all.take(i as int)) is Ok,
            out@ == old(out)@ + names_of(all.take(i as int))->Ok_0,
        decreases tokens@.len() - i,
    {
        proof {
            lemma_take_next(all, i as int);
        }
        let ghost head = names_of(all.take(i as int))->Ok_0;
        match Name::from_str(tokens[i].as_str()) {
            Ok(x) => {
                out.push(x);
                proof {
                    assert(out@ =~= old(out)@ + head.push(x));
                }
            },
            Err(e) => {
                proof {
                    lemma_names_fail(all, i as int + 1);
                }
                return Err(e);
            },
        }
        i = i + 1;
    }
    proof {
        assert(all.take(i as int) =~= all);
    }
    Ok(())
}

/// A prefix of the tokens that fails makes the whole fail at the same token.
proof fn lemma_names_fail(tokens: Seq<Seq<char>>, k: int)
    requires
        0 <= k <= tokens.len(),
        names_of(tokens.take(k)) is Err,
    ensures
        names_of(tokens) == names_of(tokens.take(k)),
    decreases tokens.len() - k,
{
    if k == tokens.len() {
        assert(tokens.take(k) =~= tokens);
    } else {
        lemma_take_next(tokens, k);
        lemma_names_fail(tokens, k + 1);
    }
}

impl Scanner {
    /// The scanner before the first event.
    pub fn new() -> (r: Scanner)
        ensures
            r@ == ScannerModel::start(),
    {
        let r = Scanner {
            library: Library::Outside,
            doc: Document::default(),
            sources: Vec::new(),
            indxs: Vec::new(),
            inputs: Vec::new(),
            stack: Vec::new(),
        };
        proof {
            assert(views(r.sources@) =~= Seq::empty());
            assert(views(r.inputs@) =~= Seq::empty());
            assert(views(r.stack@) =~= Seq::empty());
        }
        r
    }

    /// Ends the pass: the document that has been found, unless an element
    /// is still open.
    pub fn finish(self) -> (r: Result<Document, Error>)
        ensures
            match finished(self@) {
                Ok(doc) => r is Ok && r->Ok_0@ == doc,
                Err(e) => r is Err && r->Err_0@ == e,
            },
    {
        let (s, top) = self.pop();
        let tag = match top {
            None => {
                return Ok(s.doc);
            },
            Some(El::Geometry { .. }) => "geometry",
            Some(El::Source { .. }) => "source",
            Some(El::FloatArray { .. }) => "float_array",
            Some(El::Triangles { .. }) => "triangles",
            Some(El::Node(_)) => "node",
            Some(El::Mat) => "matrix",
            Some(El::Animation { .. }) => "animation",
            Some(El::NameArray { .. }) => "Name_array",
        };
        Err(Error::UnexpectedEof(tag.to_owned()))
    }

    /// Puts an accumulator on the stack.
    fn push(self, el: El) -> (r: Scanner)
        ensures
            r@ == self@.push(el@),
    {
        let mut s = self;
        proof {
            lemma_views_push(s.stack@, el);
        }
        s.stack.push(el);
        s
    }

    /// Takes the top off the stack.
    fn pop(self) -> (r: (Scanner, Option<El>))
        ensures
            match r.1 {
                Some(el) => self@.has_top() && el@ == self@.stack.last() && r.0@ == self@.pop(),
                None => !self@.has_top() && r.0@ == self@,
            },
    {
        let mut s = self;
        proof {
            if s.stack@.len() > 0 {
                lemma_views_drop_last(s.stack@);
            }
        }
        let top = s.stack.pop();
        (s, top)
    }

    /// Whether the reader stands where sources and float arrays are read.
    fn holds_sources(&self) -> (r: bool)
        ensures
            r == self@.library.holds_sources(),
    {
        match self.library {
            Library::Geometries => true,
            Library::Animations => true,
            _ => false,
        }
    }

    /// Whether the reader stands among the geometries.
    fn in_geometries(&self) -> (r: bool)
        ensures
            r == (self@.library is Geometries),
    {
        match self.library {
            Library::Geometries => true,
            _ => false,
        }
    }

    /// Whether the reader stands among the visual scenes.
    fn in_visual_scenes(&self) -> (r: bool)
        ensures
            r == (self@.library is VisualScenes),
    {
        match self.library {
            Library::VisualScenes => true,
            _ => false,
        }
    }

    /// Whether the reader stands among the animations.
    fn in_animations(&self) -> (r: bool)
        ensures
            r == (self@.library is Animations),
    {
        match self.library {
            Library::Animations => true,
            _ => false,
        }
    }

    /// Goes to another section.
    fn enter(self, library: Library) -> (r: Scanner)
        ensures
            r@ == self@.enter(library),
    {
        let mut s = self;
        s.library = library;
        s
    }

    /// Takes in an opening tag.
    pub fn opened(self, tag: &Tag) -> (r: Result<Scanner, Error>)
        ensures
            outcome(r) == opened(self@, tag@),
    {
        let name = tag.name.as_str();
        if same(name, "library_geometries") {
            Ok(self.enter(Library::Geometries))
        } else if same(name, "library_visual_scenes") {
            Ok(self.enter(Library::VisualScenes))
        } else if same(name, "library_animations") {
            Ok(self.enter(Library::Animations))
        } else if same(name, "geometry") {
            if self.in_geometries() {
                let id = attr(tag, "id")?;
                let name = attr(tag, "name")?;
                Ok(self.push(El::Geometry { id, name }))
            } else {
                Ok(self)
            }
        } else if same(name, "source") {
            if self.holds_sources() {
                let id = attr(tag, "id")?;
                Ok(self.push(El::Source { id }))
            } else {
                Ok(self)
            }
        } else if same(name, "float_array") {
            if self.holds_sources() {
                attr_count(tag, "count")?;
                Ok(self.push(El::FloatArray { floats: Vec::new() }))
            } else {
                Ok(self)
            }
        } else if same(name, "Name_array") {
            if self.in_animations() {
                attr_count(tag, "count")?;
                Ok(self.push(El::NameArray { names: Vec::new() }))
            } else {
                Ok(self)
            }
        } else if same(name, "triangles") {
            if self.in_geometries() {
                attr_count(tag, "count")?;
                Ok(self.push(El::Triangles { indxs: Vec::new() }))
            } else {
                Ok(self)
            }
        } else if same(name, "node") {
            if self.in_visual_scenes() {
                let id = attr(tag, "id")?;
                let name = attr(tag, "name")?;
                let ty = attr(tag, "type")?;
                let node = Node { id, name, ty, mat: Vec::new(), children: Vec::new() };
                proof {
                    assert(node@.children =~= Seq::empty());
                }
                Ok(self.push(El::Node(node)))
            } else {
                Ok(self)
            }
        } else if same(name, "matrix") {
            if self.in_visual_scenes() {
                Ok(self.push(El::Mat))
            } else {
                Ok(self)
            }
        } else if same(name, "animation") {
            if self.in_animations() {
                let id = attr(tag, "id")?;
                let name = attr(tag, "name")?;
                Ok(self.push(El::Animation { id, name }))
            } else {
                Ok(self)
            }
        } else {
            Ok(self)
        }
    }

    /// Takes in a closing tag.
    pub fn closed(self, name: &str) -> (r: Result<Scanner, Error>)
        ensures
            outcome(r) == closed(self@, name@),
    {
        if same(name, "library_geometries") || same(name, "library_visual_scenes") || same(
            name,
            "library_animations",
        ) {
            Ok(self.enter(Library::Outside))
        } else if same(name, "geometry") {
            if !self.in_geometries() {
                return Ok(self);
            }
            let (mut s, top) = self.pop();
            match top {
                Some(El::Geometry { id, name }) => {
                    let mut sources = Vec::new();
                    let mut indxs = Vec::new();
                    let mut inputs = Vec::new();
                    core::mem::swap(&mut sources, &mut s.sources);
                    core::mem::swap(&mut indxs, &mut s.indxs);
                    core::mem::swap(&mut inputs, &mut s.inputs);
                    let geometry = Geometry {
                        id,
                        name,
                        sources,
                        triangles: Triangles { indxs, inputs },
                    };
                    proof {
                        lemma_views_push(s.doc.geometry@, geometry);
                        assert(views(s.sources@) =~= Seq::empty());
                        assert(views(s.inputs@) =~= Seq::empty());
                    }
                    s.doc.geometry.push(geometry);
                    Ok(s)
                },
                _ => Err(Error::UnexpectedClosingTag(name.to_owned())),
            }
        } else if same(name, "source") {
            if !self.holds_sources() {
                return Ok(self);
            }
            let (mut s, top) = self.pop();
            match top {
                Some(El::Source { id }) => {
                    let ghost before = s.sources@;
                    match s.sources.pop() {
                        Some(last) => {
                            let named = Source { id, floats: last.floats, names: last.names };
                            s.sources.push(named);
                            proof {
                                assert(views(s.sources@) =~= views(before).update(
                                    before.len() - 1,
                                    named@,
                                ));
                            }
                        },
                        None => {},
                    }
                    Ok(s)
                },
                _ => Err(Error::UnexpectedClosingTag(name.to_owned())),
            }
        } else if same(name, "float_array") {
            if !self.holds_sources() {
                return Ok(self);
            }
            let (mut s, top) = self.pop();
            match top {
                Some(El::FloatArray { floats }) => {
                    let source = Source { id: String::new(), floats, names: Vec::new() };
                    proof {
                        lemma_views_push(s.sources@, source);
                        assert(source.id@ =~= Seq::empty());
                    }
                    s.sources.push(source);
                    Ok(s)
                },
                _ => Err(Error::UnexpectedClosingTag(name.to_owned())),
            }
        } else if same(name, "Name_array") {
            if !self.in_animations() {
                return Ok(self);
            }
            let (mut s, top) = self.pop();
            match top {
                Some(El::NameArray { names }) => {
                    let source = Source { id: String::new(), floats: Vec::new(), names };
                    proof {
                        lemma_views_push(s.sources@, source);
                        assert(source.id@ =~= Seq::empty());
                    }
                    s.sources.push(source);
                    Ok(s)
                },
                _ => Err(Error::UnexpectedClosingTag(name.to_owned())),
            }
        } else if same(name, "triangles") {
            if !self.in_geometries() {
                return Ok(self);
            }
            let (mut s, top) = self.pop();
            match top {
                Some(El::Triangles { indxs }) => {
                    s.indxs = indxs;
                    Ok(s)
                },
                _ => Err(Error::UnexpectedClosingTag(name.to_owned())),
            }
        } else if same(name, "node") {
            if !self.in_visual_scenes() {
                return Ok(self);
            }
            let (s, top) = self.pop();
            match top {
                Some(El::Node(node)) => Ok(s.adopt(node)),
                _ => Err(Error::UnexpectedClosingTag(name.to_owned())),
            }
        } else if same(name, "matrix") {
            if !self.in_visual_scenes() {
                return Ok(self);
            }
            let (s, top) = self.pop();
            match top {
                Some(El::Mat) => Ok(s),
                _ => Err(Error::UnexpectedClosingTag(name.to_owned())),
            }
        } else if same(name, "animation") {
            if !self.in_animations() {
                return Ok(self);
            }
            let (mut s, top) = self.pop();
            match top {
                Some(El::Animation { id, name }) => {
                    let mut sources = Vec::new();
                    core::mem::swap(&mut sources, &mut s.sources);
                    let animation = Animation { id, name, sources };
                    proof {
                        lemma_views_push(s.doc.animations@, animation);
                        assert(views(s.sources@) =~= Seq::empty());
                    }
                    s.doc.animations.push(animation);
                    Ok(s)
                },
                _ => Err(Error::UnexpectedClosingTag(name.to_owned())),
            }
        } else {
            Ok(self)
        }
    }

    /// Hands a finished node to the node that is open around it, or to the
    /// document where none is.
    fn adopt(self, node: Node) -> (r: Scanner)
        ensures
            r@ == (if self@.has_top() && self@.stack.last() is Node {
                let parent = self@.stack.last()->Node_0;
                self@.put(
                    self@.stack.len() - 1,
                    ElModel::Node(NodeModel { children: parent.children.push(node@), ..parent }),
                )
            } else {
                ScannerModel {
                    doc: DocumentModel { nodes: self@.doc.nodes.push(node@), ..self@.doc },
                    ..self@
                }
            }),
    {
        let ghost before = self@;
        let (mut s, top) = self.pop();
        match top {
            Some(El::Node(parent)) => {
                let mut parent = parent;
                proof {
                    lemma_node_children(parent);
                    lemma_views_push(parent.children@, node);
                }
                parent.children.push(node);
                proof {
                    lemma_node_children(parent);
                }
                let s = s.push(El::Node(parent));
                proof {
                    assert(s@.stack =~= before.stack.update(
                        before.stack.len() - 1,
                        ElModel::Node(parent@),
                    ));
                }
                s
            },
            Some(other) => {
                let mut s = s.push(other);
                proof {
                    assert(s@.stack =~= before.stack);
                    lemma_views_push(s.doc.nodes@, node);
                }
                s.doc.nodes.push(node);
                s
            },
            None => {
                proof {
                    lemma_views_push(s.doc.nodes@, node);
                }
                s.doc.nodes.push(node);
                s
            },
        }
    }

    /// Takes in a text.
    pub fn texted<N: Numerics>(self, text: &str, n: &N) -> (r: Result<Scanner, Error>)
        requires
            pure_numerics(n),
        ensures
            outcome(r) == texted(n, self@, text@),
    {
        let ghost before = self@;
        let (s, top) = self.pop();
        match top {
            None => Ok(s),
            Some(El::FloatArray { floats }) => {
                let mut floats = floats;
                read_floats(n, text, &mut floats)?;
                let s = s.push(El::FloatArray { floats });
                proof {
                    assert(s@.stack =~= before.stack.update(
                        before.stack.len() - 1,
                        ElModel::FloatArray { floats: floats@ },
                    ));
                }
                Ok(s)
            },
            Some(El::Triangles { indxs }) => {
                let mut indxs = indxs;
                read_indices(text, &mut indxs)?;
                let s = s.push(El::Triangles { indxs });
                proof {
                    assert(s@.stack =~= before.stack.update(
                        before.stack.len() - 1,
                        ElModel::Triangles { indxs: indxs@ },
                    ));
                }
                Ok(s)
            },
            Some(El::NameArray { names }) => {
                let mut names = names;
                read_names(text, &mut names)?;
                let s = s.push(El::NameArray { names });
                proof {
                    assert(s@.stack =~= before.stack.update(
                        before.stack.len() - 1,
                        ElModel::NameArray { names: names@ },
                    ));
                }
                Ok(s)
            },
            Some(El::Mat) => {
                let (s, below) = s.pop();
                match below {
                    Some(El::Node(node)) => {
                        let mut node = node;
                        let ghost old_node = node@;
                        read_floats(n, text, &mut node.mat)?;
                        proof {
                            assert(node@.children =~= old_node.children);
                        }
                        let s = s.push(El::Node(node));
                        let s = s.push(El::Mat);
                        proof {
                            assert(s@.stack =~= before.stack.update(
                                before.stack.len() - 2,
                                ElModel::Node(node@),
                            ));
                        }
                        Ok(s)
                    },
                    _ => Err(Error::MatrixNotFound),
                }
            },
            Some(other) => {
                let s = s.push(other);
                proof {
                    assert(s@.stack =~= before.stack);
                }
                Ok(s)
            },
        }
    }

    /// Takes in one event. The end of the document, like anything that the
    /// reader passes over, leaves the state as it is.
    pub fn step<N: Numerics>(self, event: &Event, n: &N) -> (r: Result<Scanner, Error>)
        requires
            pure_numerics(n),
        ensures
            outcome(r) == stepped(n, self@, event@),
    {
        match event {
            Event::Start(tag) => self.opened(tag),
            Event::End(name) => self.closed(name.as_str()),
            Event::Empty(tag) => self.emptied(tag),
            Event::Text(text) => self.texted(text.as_str(), n),
            Event::Eof => Ok(self),
            Event::Other => Ok(self),
        }
    }

    /// Takes in a self-closing tag.
    pub fn emptied(self, tag: &Tag) -> (r: Result<Scanner, Error>)
        ensures
            outcome(r) == emptied(self@, tag@),
    {
        let mut s = self;
        let inside = s.stack.len() > 0 && match &s.stack[s.stack.len() - 1] {
            El::Triangles { .. } => true,
            _ => false,
        };
        if !inside {
            return Ok(s);
        }
        let source = attr(tag, "source")?;
        let offset = attr_count(tag, "offset")?;
        let input = Input { source, offset };
        proof {
            lemma_views_push(s.inputs@, input);
        }
        s.inputs.push(input);
        Ok(s)
    }
}

} // verus!
