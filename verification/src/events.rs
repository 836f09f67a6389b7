//! Structural events of an XML document, and the trusted boundary to the
//! tokenizer that produces them.

use vstd::prelude::*;

verus! {

use quick_xml::events::Event;
use vstd::utf8::decode_utf8;
use vstd::utf8::valid_utf8;

/// One attribute of a tag: its key and its raw value, as bytes.
pub struct Attr {
    pub key: Vec<u8>,
    pub value: Vec<u8>,
}

/// Mathematical model of an [`Attr`].
pub struct SpecAttr {
    pub key: Seq<u8>,
    pub value: Seq<u8>,
}

impl View for Attr {
    type V = SpecAttr;

    open spec fn view(&self) -> SpecAttr {
        SpecAttr { key: self.key@, value: self.value@ }
    }
}

impl DeepView for Attr {
    type V = SpecAttr;

    open spec fn deep_view(&self) -> SpecAttr {
        self@
    }
}

/// One structural event of a document, reduced to plain bytes.
pub enum XmlEvent {
    /// A start tag, with its name.
    Start(Vec<u8>),
    /// An end tag, with its name.
    End(Vec<u8>),
    /// Character data between tags.
    Text(Vec<u8>),
    /// A self-closing tag, with its name and its attributes.
    Empty(Vec<u8>, Vec<Attr>),
    /// End of the document.
    Eof,
    /// Any other structural event (comment, declaration, CDATA, ...).
    Other,
}

/// Mathematical model of an [`XmlEvent`].
pub enum SpecEvent {
    Start(Seq<u8>),
    End(Seq<u8>),
    Text(Seq<u8>),
    Empty(Seq<u8>, Seq<SpecAttr>),
    Eof,
    Other,
}

impl View for XmlEvent {
    type V = SpecEvent;

    open spec fn view(&self) -> SpecEvent {
        match self {
            XmlEvent::Start(n) => SpecEvent::Start(n@),
            XmlEvent::End(n) => SpecEvent::End(n@),
            XmlEvent::Text(t) => SpecEvent::Text(t@),
            XmlEvent::Empty(n, attrs) => SpecEvent::Empty(n@, attrs.deep_view()),
            XmlEvent::Eof => SpecEvent::Eof,
            XmlEvent::Other => SpecEvent::Other,
        }
    }
}

#[verifier::external_type_specification]
#[verifier::external_body]
#[verifier::reject_recursive_types(R)]
pub struct ExReader<R>(quick_xml::Reader<R>);

#[verifier::external_type_specification]
#[verifier::external_body]
pub struct ExBytesStart<'a>(quick_xml::events::BytesStart<'a>);

/// Relies on quick_xml's `BytesStart::attributes`: hands the tag's
/// well-formed attributes over as plain bytes, in source order.
#[verifier::external_body]
fn attrs_of(e: &quick_xml::events::BytesStart<'_>) -> (r: Vec<Attr>) {
    e.attributes().flatten().map(
        |a| Attr { key: a.key.as_ref().as_bytes().to_vec(), value: a.value.as_bytes().to_vec() },
    ).collect()
}

#[verifier::external_type_specification]
#[verifier::external_body]
pub struct ExBytesRef<'a>(quick_xml::events::BytesRef<'a>);

#[verifier::external_type_specification]
#[verifier::external_body]
pub struct ExEvent<'a>(quick_xml::events::Event<'a>);

#[verifier::external_type_specification]
#[verifier::external_body]
pub struct ExQName<'a>(quick_xml::name::QName<'a>);

#[verifier::external_type_specification]
#[verifier::external_body]
pub struct ExError(quick_xml::Error);

/// Relies on quick_xml's `QName`: hands a tag name over as plain bytes.
#[verifier::external_body]
fn tag_bytes(n: quick_xml::name::QName<'_>) -> (r: Vec<u8>) {
    n.0.as_bytes().to_vec()
}

/// Relies on quick_xml's `BytesRef`: reconstructs the reference's raw
/// text — an ampersand, its name, a semicolon — exactly as it stood in
/// the document, so that a general reference reaches the parser as the
/// text it wrote.
#[verifier::external_body]
fn ref_text(e: quick_xml::events::BytesRef<'_>) -> (r: Vec<u8>) {
    format!("&{};", e.into_inner()).into_bytes()
}

/// Relies on quick_xml's event types: reduces one read result to plain
/// bytes, one match arm per event kind — a general reference as its raw
/// text — or to the tokenizer's diagnostic.
#[verifier::external_body]
fn convert_event(r: Result<quick_xml::events::Event<'_>, quick_xml::Error>) -> (c: Result<
    XmlEvent,
    String,
>) {
    match r {
        Ok(Event::Start(e)) => Ok(XmlEvent::Start(tag_bytes(e.name()))),
        Ok(Event::End(e)) => Ok(XmlEvent::End(tag_bytes(e.name()))),
        Ok(Event::Text(e)) => Ok(XmlEvent::Text(e.as_ref().as_bytes().to_vec())),
        Ok(Event::Empty(e)) => Ok(XmlEvent::Empty(tag_bytes(e.name()), attrs_of(&e))),
        Ok(Event::GeneralRef(e)) => Ok(XmlEvent::Text(ref_text(e))),
        Ok(Event::Eof) => Ok(XmlEvent::Eof),
        Ok(_) => Ok(XmlEvent::Other),
        Err(e) => Err(e.to_string()),
    }
}

/// The event stream the tokenizer produces for a document: the results
/// of its successive reads, in order, up to and including the
/// end-of-document event. The tokenizer reads an in-memory string, so
/// the stream is a function of the document text alone. A document on
/// which the tokenizer reports malformed markup has a stream that ends
/// without the end-of-document event: the error comes where the stream
/// stops.
pub uninterp spec fn events_of(s: Seq<char>) -> Seq<SpecEvent>;

/// A tokenizer over a borrowed document: the standards-compliant event
/// source the parser consumes, with surrounding whitespace of text
/// trimmed. The ghost fields model its progress through the document's
/// event stream; once it has reported an error, `failed` is set and its
/// contract says nothing of further calls.
pub(crate) struct Tokenizer<'a> {
    pub(crate) reader: quick_xml::Reader<&'a [u8]>,
    pub(crate) doc: Ghost<Seq<char>>,
    pub(crate) consumed: Ghost<Seq<SpecEvent>>,
    pub(crate) failed: Ghost<bool>,
}

impl<'a> Tokenizer<'a> {
    /// Relies on quick_xml's `Reader::from_str`, configured with
    /// `trim_text(true)` as the feed reader sets it, and with dangling
    /// ampersands kept as plain text: builds a tokenizer over the
    /// document text, with none of its stream consumed yet.
    #[verifier::external_body]
    pub(crate) fn new(input: &'a str) -> (r: Tokenizer<'a>)
        ensures
            r.doc@ == input@,
            r.consumed@ == Seq::<SpecEvent>::empty(),
            !r.failed@,
    {
        let mut reader = quick_xml::Reader::from_str(input);
        reader.config_mut().trim_text(true);
        reader.config_mut().allow_dangling_amp = true;
        Tokenizer { reader, doc: Ghost(input@), consumed: Ghost(Seq::empty()), failed: Ghost(false) }
    }

    /// Relies on quick_xml's `Reader::read_event`: hands the next
    /// structural event of the document's stream over as plain bytes —
    /// a general reference as its raw text — or the tokenizer's
    /// diagnostic once the stream is exhausted without an
    /// end-of-document event.
    #[verifier::external_body]
    pub(crate) fn next_event(&mut self) -> (r: Result<XmlEvent, String>)
        requires
            !old(self).failed@,
            old(self).consumed@ == events_of(old(self).doc@).take(old(self).consumed@.len() as int),
            old(self).consumed@.len() == 0 || !(old(self).consumed@.last() is Eof),
        ensures
            final(self).doc@ == old(self).doc@,
            match r {
                Ok(ev) => {
                    &&& !final(self).failed@
                    &&& old(self).consumed@.len() < events_of(old(self).doc@).len()
                    &&& ev@ == events_of(old(self).doc@)[old(self).consumed@.len() as int]
                    &&& final(self).consumed@ == old(self).consumed@.push(ev@)
                },
                Err(_) => {
                    &&& final(self).failed@
                    &&& final(self).consumed@ == old(self).consumed@
                    &&& old(self).consumed@ == events_of(old(self).doc@)
                    &&& events_of(old(self).doc@).len() == 0 || !(events_of(
                        old(self).doc@,
                    ).last() is Eof)
                },
            },
    {
        convert_event(self.reader.read_event())
    }
}

/// Relies on `core::str::from_utf8`: succeeds exactly on valid UTF-8 bytes,
/// giving their decoding.
#[verifier::external_body]
pub(crate) fn bytes_to_string(b: &Vec<u8>) -> (r: Option<String>)
    ensures
        match r {
            Some(s) => valid_utf8(b@) && s@ == decode_utf8(b@),
            None => !valid_utf8(b@),
        },
{
    match core::str::from_utf8(b.as_slice()) {
        Ok(s) => Some(s.to_owned()),
        Err(_) => None,
    }
}

} // verus!
