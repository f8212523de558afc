//! The events of an XML text, as the `quick_xml` reader hands them out.

use quick_xml::events::BytesStart;
use quick_xml::events::Event as XmlEvent;
use vstd::prelude::*;

verus! {

/// The reader of the `quick_xml` crate.
#[verifier::external_type_specification]
#[verifier::external_body]
#[verifier::reject_recursive_types(R)]
pub struct ExReader<R>(quick_xml::Reader<R>);

/// An opening or self-closing tag: its name, and the text that follows the
/// name inside the tag, which holds the attributes.
#[derive(Debug)]
pub struct Tag {
    pub name: String,
    pub attributes: String,
}

pub struct TagModel {
    pub name: Seq<char>,
    pub attributes: Seq<char>,
}

impl View for Tag {
    type V = TagModel;

    open spec fn view(&self) -> TagModel {
        TagModel { name: self.name@, attributes: self.attributes@ }
    }
}

/// One event of the text.
#[derive(Debug)]
pub enum Event {
    /// `<name attributes>`
    Start(Tag),
    /// `</name>`
    End(String),
    /// `<name attributes/>`
    Empty(Tag),
    /// The text between two tags, as it stands in the document.
    Text(String),
    /// The end of the document.
    Eof,
    /// A comment, a declaration or anything else that the reader passes over.
    Other,
}

pub enum EventModel {
    Start(TagModel),
    End(Seq<char>),
    Empty(TagModel),
    Text(Seq<char>),
    Eof,
    Other,
}

impl View for Event {
    type V = EventModel;

    open spec fn view(&self) -> EventModel {
        match self {
            Event::Start(tag) => EventModel::Start(tag@),
            Event::End(name) => EventModel::End(name@),
            Event::Empty(tag) => EventModel::Empty(tag@),
            Event::Text(text) => EventModel::Text(text@),
            Event::Eof => EventModel::Eof,
            Event::Other => EventModel::Other,
        }
    }
}

/// The raw value of the first attribute named `name` among `attributes`, as
/// `quick_xml` finds it; `None` where there is none or where the text before
/// it is no attribute list.
pub uninterp spec fn attribute_value(attributes: Seq<char>, name: Seq<char>) -> Option<Seq<char>>;

/// What a reader has to hand out: an event, or the message of a failure,
/// and the byte offset that the reader has come to with it.
pub type StepModel = (Result<EventModel, Seq<char>>, usize);

/// What a `quick_xml` reader over the text `src` hands out, one after the
/// other, before it reports the end of the text. A failure, if there is one,
/// comes last.
pub uninterp spec fn xml_events(src: Seq<char>) -> Seq<StepModel>;

/// What a reader has yet to hand out before it reports the end of its text.
pub uninterp spec fn unread(reader: quick_xml::Reader<&[u8]>) -> Seq<StepModel>;

/// The byte offset that a reader has come to.
pub uninterp spec fn offset(reader: quick_xml::Reader<&[u8]>) -> usize;

/// What an event or the message of a failure holds.
pub open spec fn handed(r: Result<Event, String>) -> Result<EventModel, Seq<char>> {
    match r {
        Ok(event) => Ok(event@),
        Err(message) => Err(message@),
    }
}

/// `Reader::from_str`: a reader over the text, which has all of it yet to
/// hand out.
#[verifier::external_body]
pub(crate) fn open_reader<'a>(src: &'a str) -> (r: quick_xml::Reader<&'a [u8]>)
    ensures
        unread(r) == xml_events(src@),
{
    quick_xml::Reader::from_str(src)
}

/// `Reader::read_event`: the next event of the text, or the message of the
/// failure that the reader met. Names, attributes and text are copied out as
/// they stand in the document. The end of the text is reported when nothing
/// is left to hand out, and from then on; anything else is the first of what
/// was left, and the reader has come to the offset that goes with it.
#[verifier::external_body]
pub(crate) fn next_event(reader: &mut quick_xml::Reader<&[u8]>) -> (r: Result<Event, String>)
    ensures
        match r {
            Ok(Event::Eof) => unread(*old(reader)).len() == 0 && unread(*final(reader)).len() == 0,
            _ => {
                &&& unread(*old(reader)).len() > 0
                &&& handed(r) == unread(*old(reader))[0].0
                &&& offset(*final(reader)) == unread(*old(reader))[0].1
                &&& unread(*final(reader)) == unread(*old(reader)).skip(1)
            },
        },
{
    let own = |bytes: &[u8]| String::from_utf8_lossy(bytes).into_owned();
    let tag = |e: BytesStart| Tag { name: own(e.name().as_ref()), attributes: own(e.attributes_raw()) };
    Ok(match reader.read_event().map_err(|err| err.to_string())? {
        XmlEvent::Start(e) => Event::Start(tag(e)),
        XmlEvent::End(e) => Event::End(own(e.name().as_ref())),
        XmlEvent::Empty(e) => Event::Empty(tag(e)),
        XmlEvent::Text(e) => Event::Text(own(&e)),
        XmlEvent::Eof => Event::Eof,
        _ => Event::Other,
    })
}

/// `Reader::buffer_position`: the byte offset that the reader has come to.
#[verifier::external_body]
pub(crate) fn position(reader: &quick_xml::Reader<&[u8]>) -> (r: usize)
    ensures
        r == offset(*reader),
{
    reader.buffer_position()
}

/// `BytesStart::try_get_attribute` on a tag with the attribute text
/// `attributes`: the raw value of the first attribute with the key `name`.
/// An attribute list that cannot be read up to such a key gives `None`.
#[verifier::external_body]
pub(crate) fn find_attribute(attributes: &str, name: &str) -> (r: Option<String>)
    ensures
        match r {
            Some(value) => attribute_value(attributes@, name@) == Some(value@),
            None => attribute_value(attributes@, name@).is_none(),
        },
{
    BytesStart::from_content(attributes, 0).try_get_attribute(name).ok().flatten().map(
        |at| String::from_utf8_lossy(&at.value).into_owned(),
    )
}

} // verus!
