//! The events of an XML document, as plain values.
use vstd::prelude::*;

use quick_xml::events::Event::{End, Eof, GeneralRef, Start, Text};
use quick_xml::Reader;

verus! {

/// One event of a document.
#[derive(Debug, PartialEq, Eq)]
pub enum XmlEvent {
    /// A start tag, by its local name.
    Start(Vec<u8>),
    /// An end tag, by its local name.
    End(Vec<u8>),
    /// A run of character data, or why it is no text.
    Text(Result<String, String>),
    /// A reference: the character that a character reference stands for, and the name of
    /// one that is none; or why either is not to be had.
    Reference { character: Result<Option<char>, String>, name: Result<String, String> },
    /// Anything else.
    Other,
    /// The document is not well formed from here on.
    Malformed(String),
    /// The end of the document.
    Eof,
}

/// What an [`XmlEvent`] says.
pub enum XmlEventView {
    Start(Seq<u8>),
    End(Seq<u8>),
    Text(Result<Seq<char>, Seq<char>>),
    Reference {
        character: Result<Option<char>, Seq<char>>,
        name: Result<Seq<char>, Seq<char>>,
    },
    Other,
    Malformed(Seq<char>),
    Eof,
}

/// The text or the refusal in a result.
pub open spec fn text_or_refusal(r: Result<String, String>) -> Result<Seq<char>, Seq<char>> {
    match r {
        Ok(s) => Ok(s@),
        Err(e) => Err(e@),
    }
}

impl View for XmlEvent {
    type V = XmlEventView;

    open spec fn view(&self) -> XmlEventView {
        match *self {
            XmlEvent::Start(name) => XmlEventView::Start(name@),
            XmlEvent::End(name) => XmlEventView::End(name@),
            XmlEvent::Text(content) => XmlEventView::Text(text_or_refusal(content)),
            XmlEvent::Reference { character, name } => XmlEventView::Reference {
                character: match character {
                    Ok(c) => Ok(c),
                    Err(e) => Err(e@),
                },
                name: text_or_refusal(name),
            },
            XmlEvent::Other => XmlEventView::Other,
            XmlEvent::Malformed(error) => XmlEventView::Malformed(error@),
            XmlEvent::Eof => XmlEventView::Eof,
        }
    }
}

/// A reader over a document held in memory.
#[verifier::external_type_specification]
#[verifier::external_body]
#[verifier::reject_recursive_types(R)]
pub struct ExReader<R>(quick_xml::Reader<R>);

/// The events of a document in front of its end, in order.
pub uninterp spec fn xml_events(document: Seq<u8>) -> Seq<XmlEventView>;

/// The events that a reader has yet to give in front of the end.
pub uninterp spec fn pending_events(reader: quick_xml::Reader<&[u8]>) -> Seq<XmlEventView>;

/// `quick_xml::Reader::from_reader`: a reader at the start of a document, with all of the
/// document's events before it.
#[verifier::external_body]
pub(crate) fn open_document<'a>(document: &'a [u8]) -> (r: quick_xml::Reader<&'a [u8]>)
    ensures
        pending_events(r) == xml_events(document@),
{
    Reader::from_reader(document)
}

/// `quick_xml::Reader::read_event_into`: the next event of a document, and `Eof` once there
/// is none. A tag comes by what stands behind the colon of its name
/// (`local_name`), character data as `xml10_content` decodes it, and a reference as
/// `resolve_char_ref` and `decode` give it.
#[verifier::external_body]
pub(crate) fn next_event(reader: &mut quick_xml::Reader<&[u8]>) -> (r: XmlEvent)
    ensures
        pending_events(*old(reader)).len() == 0 ==> r@ is Eof && pending_events(*final(reader))
            == pending_events(*old(reader)),
        pending_events(*old(reader)).len() > 0 ==> r@ == pending_events(*old(reader))[0]
            && !(r@ is Eof) && pending_events(*final(reader)) == pending_events(
            *old(reader),
        ).drop_first(),
{
    match reader.read_event_into(&mut vec![]) {
        Ok(Start(tag)) => XmlEvent::Start(tag.local_name().as_ref().into()),
        Ok(End(tag)) => XmlEvent::End(tag.local_name().as_ref().into()),
        Ok(Text(run)) => XmlEvent::Text(
            run.xml10_content().map(String::from).map_err(|e| e.to_string())
        ),
        Ok(GeneralRef(run)) => XmlEvent::Reference {
            character: run.resolve_char_ref().map_err(|e| e.to_string()),
            name: run.decode().map(String::from).map_err(|e| e.to_string())
        },
        Ok(Eof) => XmlEvent::Eof,
        Ok(_) => XmlEvent::Other,
        Err(error) => XmlEvent::Malformed(error.to_string())
    }
}

/// The text of the five entities that XML predefines.
pub open spec fn predefined(name: Seq<char>) -> Option<Seq<char>> {
    if name == "lt"@ {
        Some("<"@)
    } else if name == "gt"@ {
        Some(">"@)
    } else if name == "amp"@ {
        Some("&"@)
    } else if name == "apos"@ {
        Some("'"@)
    } else if name == "quot"@ {
        Some("\""@)
    } else {
        None
    }
}

/// `quick_xml::escape::resolve_predefined_entity`: the text of one of the five entities that
/// XML predefines, and nothing for any other name.
#[verifier::external_body]
pub(crate) fn resolve_entity(name: &str) -> (r: Option<&'static str>)
    ensures
        match r {
            Some(s) => predefined(name@) == Some(s@),
            None => predefined(name@) is None,
        },
{
    quick_xml::escape::resolve_predefined_entity(name)
}

} // verus!
