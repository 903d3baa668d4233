//! The events that make up an XML document.

use quick_xml::events::Event;
use quick_xml::Reader;
use vstd::prelude::*;

verus! {

/// An attribute that could be read: its key and its value.
#[derive(Debug)]
pub struct XmlAttr {
    pub key: Vec<u8>,
    pub value: Vec<u8>,
}

/// The contents of an [`XmlAttr`].
#[verifier::ext_equal]
pub struct XmlAttrV {
    pub key: Seq<u8>,
    pub value: Seq<u8>,
}

/// One step through a document. An empty element is a start followed by an end. An attribute that
/// is not well formed is `None`.
#[derive(Debug)]
pub enum XmlEvent {
    /// The declaration at the start.
    Decl,
    Start { name: Vec<u8>, attrs: Vec<Option<XmlAttr>> },
    End { name: Vec<u8> },
    /// Text, a comment, or whatever else is no element.
    Other,
    /// The document is not well formed here; nothing follows.
    Failed,
}

/// The contents of an [`XmlEvent`].
#[verifier::ext_equal]
pub enum XmlEventV {
    Decl,
    Start { name: Seq<u8>, attrs: Seq<Option<XmlAttrV>> },
    End { name: Seq<u8> },
    Other,
    Failed,
}

/// The contents of an attribute, if it could be read.
pub open spec fn attr_view(a: Option<XmlAttr>) -> Option<XmlAttrV> {
    match a {
        Some(a) => Some(XmlAttrV { key: a.key@, value: a.value@ }),
        None => None,
    }
}

/// The contents of a list of attributes.
pub open spec fn attrs_view(attrs: Seq<Option<XmlAttr>>) -> Seq<Option<XmlAttrV>> {
    Seq::new(attrs.len(), |i: int| attr_view(attrs[i]))
}

impl View for XmlEvent {
    type V = XmlEventV;

    open spec fn view(&self) -> XmlEventV {
        match self {
            XmlEvent::Decl => XmlEventV::Decl,
            XmlEvent::Start { name, attrs } => XmlEventV::Start {
                name: name@,
                attrs: attrs_view(attrs@),
            },
            XmlEvent::End { name } => XmlEventV::End { name: name@ },
            XmlEvent::Other => XmlEventV::Other,
            XmlEvent::Failed => XmlEventV::Failed,
        }
    }
}

/// The contents of a list of events.
pub open spec fn events_view(events: Seq<XmlEvent>) -> Seq<XmlEventV> {
    Seq::new(events.len(), |i: int| events[i]@)
}

#[verifier::external_type_specification]
#[verifier::external_body]
#[verifier::reject_recursive_types(R)]
pub struct ExReader<R>(Reader<R>);

/// The events of a document, up to its end, from a reader that trims text and expands empty elements
/// where it is told to.
pub uninterp spec fn xml_events(data: Seq<u8>, trim: bool, expand: bool) -> Seq<XmlEventV>;

/// The events that a reader has not handed out.
pub uninterp spec fn events_left(reader: Reader<&[u8]>) -> Seq<XmlEventV>;

/// Calls `Reader::from_reader` on a document, and tells the reader whether to trim text and whether
/// to expand empty elements. Which events it will hand out depends on the document and on these two
/// settings alone.
#[verifier::external_body]
fn new_reader(data: &[u8], trim: bool, expand: bool) -> (r: Reader<&[u8]>)
    ensures
        events_left(r) == xml_events(data@, trim, expand),
{
    let mut reader = Reader::from_reader(data);
    reader.trim_text(trim).expand_empty_elements(expand);
    reader
}

/// Calls `Reader::read_event_into`, which hands out the next event, and the end of the document
/// when there is none: each event uses up some of the document or closes an element that has been
/// expanded, and after an error or the end there is nothing but the end. Keys and values of
/// attributes are as they stand in the document.
#[verifier::external_body]
fn next_event(reader: &mut Reader<&[u8]>) -> (r: Option<XmlEvent>)
    ensures
        match r {
            Some(event) => events_left(*old(reader)).len() > 0 && event@ == events_left(
                *old(reader),
            )[0] && events_left(*final(reader)) == events_left(*old(reader)).skip(1),
            None => events_left(*old(reader)).len() == 0 && events_left(*final(reader)).len() == 0,
        },
{
    match reader.read_event_into(&mut Vec::new()) {
        Ok(Event::Decl(_)) => Some(XmlEvent::Decl),
        Ok(Event::Start(b)) => {
            let name = b.name().into_inner().to_vec();
            let attrs = b.attributes().map(|a| a.ok().map(|a| XmlAttr {
                key: a.key.into_inner().to_vec(), value: a.value.into_owned() }));
            Some(XmlEvent::Start { name, attrs: attrs.collect() })
        },
        Ok(Event::End(b)) => Some(XmlEvent::End { name: b.name().into_inner().to_vec() }),
        Ok(Event::Eof) => None,
        Ok(_) => Some(XmlEvent::Other),
        Err(_) => Some(XmlEvent::Failed),
    }
}

/// Reads a document, event by event, without the spaces around text, and with a start and an end for
/// each empty element.
pub fn read_events(data: &[u8]) -> (r: Vec<XmlEvent>)
    ensures
        events_view(r@) == xml_events(data@, true, true),
{
    let mut reader = new_reader(data, true, true);
    let mut events: Vec<XmlEvent> = Vec::new();
    let ghost all = events_left(reader);
    assert(events_view(events@) + all =~= all);
    loop
        invariant
            all == xml_events(data@, true, true),
            events_view(events@) + events_left(reader) == all,
        decreases events_left(reader).len(),
    {
        let ghost left = events_left(reader);
        let ghost before = events@;
        match next_event(&mut reader) {
            None => {
                assert(events_view(events@) =~= all);
                return events;
            },
            Some(event) => {
                events.push(event);
                assert(events_view(events@) =~= events_view(before).push(left[0]));
                assert(events_view(events@) + left.skip(1) =~= all);
            },
        }
    }
}

} // verus!
