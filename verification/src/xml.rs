//! Tokenising XML text. quick-xml splits the document into events; this
//! module turns them into the events the DDI reader consumes: attribute and
//! text bytes checked as UTF-8, attribute values read as numbers by the
//! caller's parser, and an element's attributes kept up to the first one
//! that cannot be read.

use vstd::prelude::*;
use quick_xml::events::{BytesStart, Event};
use quick_xml::Reader;
use crate::ddi::{XmlAttribute, XmlElement, XmlEvent};
use crate::text::utf8;
use crate::xml::RawXmlEvent::{Empty, End, Eof, Failed, Other, Start, Text};

verus! {

/// An element tag as the tokeniser read it: its name, and each attribute
/// as its key and value bytes or as why it could not be read.
pub struct RawElement(pub Vec<u8>, pub Vec<Result<(Vec<u8>, Vec<u8>), String>>);

/// One event as the tokeniser read it.
pub enum RawXmlEvent {
    Start(RawElement),
    Empty(RawElement),
    /// The bytes of a text node, with surrounding whitespace trimmed.
    Text(Vec<u8>),
    End(Vec<u8>),
    Eof,
    /// The tokeniser failed, for the reason given.
    Failed(String),
    /// Anything else (comments, declarations, ...).
    Other,
}

/// The events quick-xml reads from `text`, with whitespace around text
/// trimmed, up to and including the end of the document or the first
/// error.
pub uninterp spec fn xml_tokens(text: Seq<u8>) -> Seq<RawXmlEvent>;

/// The events a reader has still to give, up to and including the end of
/// the document or the first error.
pub uninterp spec fn pending_tokens(reader: Reader<&[u8]>) -> Seq<RawXmlEvent>;

/// The event ends the stream: the end of the document or an error.
pub open spec fn is_last_token(e: RawXmlEvent) -> bool {
    e is Eof || e is Failed
}

/// A stream of events that ends, with its last event and only that one
/// ending it.
pub open spec fn token_stream(s: Seq<RawXmlEvent>) -> bool {
    &&& s.len() > 0
    &&& is_last_token(s.last())
    &&& forall|i: int| 0 <= i < s.len() - 1 ==> !is_last_token(#[trigger] s[i])
}

/// quick-xml's reader.
#[verifier::external_type_specification]
#[verifier::external_body]
#[verifier::reject_recursive_types(R)]
pub struct ExReader<R>(Reader<R>);

/// Calls quick-xml's `Reader::from_reader` on `text`, with text trimmed.
/// The contract claims that the reader's events are `xml_tokens(text)`,
/// and that they end: quick-xml reads a finite slice to its end or to an
/// error.
#[verifier::external_body]
fn xml_reader(text: &[u8]) -> (r: Reader<&[u8]>)
    ensures
        pending_tokens(r) == xml_tokens(text@),
        token_stream(pending_tokens(r)),
{
    let mut xml = Reader::from_reader(text);
    xml.config_mut().trim_text(true);
    xml
}

/// Calls quick-xml's `Reader::read_event` once and converts the event one
/// for one (an element's attributes read without the duplicate check). The
/// contract claims that it gives the reader's next event and moves past it.
#[verifier::external_body]
fn next_token(xml: &mut Reader<&[u8]>) -> (e: RawXmlEvent)
    requires
        pending_tokens(*old(xml)).len() > 0,
    ensures
        e == pending_tokens(*old(xml))[0],
        pending_tokens(*final(xml)) == pending_tokens(*old(xml)).drop_first(),
{
    let tag = |e: BytesStart| RawElement(e.name().0.to_vec(), e.attributes().with_checks(false).map(|a| a.map(|a| (a.key.0.to_vec(), a.value.to_vec())).map_err(|e| e.to_string())).collect());
    match xml.read_event() {
        Ok(Event::Start(e)) => Start(tag(e)),
        Ok(Event::Empty(e)) => Empty(tag(e)),
        Ok(Event::Text(t)) => Text(t.to_vec()),
        Ok(Event::End(e)) => End(e.to_vec()),
        Ok(Event::Eof) => Eof,
        Ok(_) => Other,
        Err(e) => Failed(e.to_string()),
    }
}

/// The events of the XML text `text`, read to the end of the document or
/// the first error.
pub fn tokenize_xml(text: &[u8]) -> (r: Vec<RawXmlEvent>)
    ensures
        r@ == xml_tokens(text@),
{
    let mut xml = xml_reader(text);
    let mut out: Vec<RawXmlEvent> = Vec::new();
    loop
        invariant
            out@ + pending_tokens(xml) == xml_tokens(text@),
            token_stream(pending_tokens(xml)),
        decreases pending_tokens(xml).len(),
    {
        let ghost before = pending_tokens(xml);
        let e = next_token(&mut xml);
        let last = match &e {
            RawXmlEvent::Eof => true,
            RawXmlEvent::Failed(_) => true,
            _ => false,
        };
        out.push(e);
        if last {
            proof {
                if before.len() > 1 {
                    assert(!is_last_token(before[0]));
                }
                assert(pending_tokens(xml).len() == 0);
                assert(out@ =~= xml_tokens(text@));
            }
            return out;
        }
        proof {
            assert(before.len() > 1);
            assert(out@ + pending_tokens(xml) =~= xml_tokens(text@));
            assert forall|i: int| 0 <= i < pending_tokens(xml).len() - 1 implies !is_last_token(
                #[trigger] pending_tokens(xml)[i],
            ) by {
                assert(pending_tokens(xml)[i] == before[i + 1]);
            }
        }
    }
}

/// The message std gives for bytes that are not UTF-8.
pub uninterp spec fn utf8_error_text(bytes: Seq<u8>) -> Seq<char>;

/// `bytes` are the UTF-8 encoding of some text.
pub open spec fn is_utf8(bytes: Seq<u8>) -> bool {
    exists|t: Seq<char>| #[trigger] utf8(t) == bytes
}

/// Calls `String::from_utf8`: as std documents, it succeeds exactly on
/// valid UTF-8 and then holds the text those bytes encode. Its error
/// message is named `utf8_error_text`.
#[verifier::external_body]
fn utf8_text(bytes: &[u8]) -> (r: Result<String, String>)
    ensures
        match r {
            Ok(s) => utf8(s@) == bytes@,
            Err(e) => e@ == utf8_error_text(bytes@) && !is_utf8(bytes@),
        },
{
    String::from_utf8(bytes.to_vec()).map_err(|e| e.to_string())
}

/// `t` is what checking `bytes` as UTF-8 gives.
pub open spec fn text_cooked(bytes: Seq<u8>, t: Result<String, String>) -> bool {
    match t {
        Ok(s) => utf8(s@) == bytes,
        Err(e) => e@ == utf8_error_text(bytes) && !is_utf8(bytes),
    }
}

/// `n` is a result `parse` may give on the text `s`.
pub open spec fn number_parsed<P: Fn(&str) -> Result<u64, String>>(
    parse: P,
    s: Seq<char>,
    n: Result<u64, String>,
) -> bool {
    exists|t: &str| t@ == s && #[trigger] parse.ensures((t,), n)
}

/// `a` is the attribute `raw` becomes: a readable one gets its value checked
/// as UTF-8 and, where it is text, read as a number by `parse`.
pub open spec fn attribute_cooked<P: Fn(&str) -> Result<u64, String>>(
    parse: P,
    raw: Result<(Vec<u8>, Vec<u8>), String>,
    a: XmlAttribute,
) -> bool {
    match raw {
        Err(m) => a matches XmlAttribute::Malformed(x) && x@ == m@,
        Ok((k, v)) => match a {
            XmlAttribute::Entry { key, value, number } => {
                &&& key@ == k@
                &&& text_cooked(v@, value)
                &&& match value {
                    Ok(s) => number_parsed(parse, s@, number),
                    Err(e) => number matches Err(x) && x@ == e@,
                }
            },
            XmlAttribute::Malformed(_) => false,
        },
    }
}

/// `out` are the attributes of `raw`, up to and including the first one
/// that could not be read.
pub open spec fn attributes_cooked<P: Fn(&str) -> Result<u64, String>>(
    parse: P,
    raw: Seq<Result<(Vec<u8>, Vec<u8>), String>>,
    out: Seq<XmlAttribute>,
) -> bool {
    &&& out.len() <= raw.len()
    &&& forall|i: int| 0 <= i < out.len() ==> attribute_cooked(parse, raw[i], #[trigger] out[i])
    &&& forall|i: int| 0 <= i < out.len() - 1 ==> (#[trigger] raw[i]) is Ok
    &&& out.len() == raw.len() || (out.len() > 0 && raw[out.len() - 1] is Err)
}

/// `x` is the element `raw` becomes.
pub open spec fn element_cooked<P: Fn(&str) -> Result<u64, String>>(
    parse: P,
    raw: RawElement,
    x: XmlElement,
) -> bool {
    x.name@ == raw.0@ && attributes_cooked(parse, raw.1@, x.attributes@)
}

/// `e` is the event `raw` becomes.
pub open spec fn event_cooked<P: Fn(&str) -> Result<u64, String>>(
    parse: P,
    raw: RawXmlEvent,
    e: XmlEvent,
) -> bool {
    match raw {
        RawXmlEvent::Start(el) => e matches XmlEvent::Start(x) && element_cooked(parse, el, x),
        RawXmlEvent::Empty(el) => e matches XmlEvent::Empty(x) && element_cooked(parse, el, x),
        RawXmlEvent::Text(b) => e matches XmlEvent::Text(t) && text_cooked(b@, t),
        RawXmlEvent::End(n) => e matches XmlEvent::End(m) && m@ == n@,
        RawXmlEvent::Eof => e is Eof,
        RawXmlEvent::Failed(m) => e matches XmlEvent::Failed(x) && x@ == m@,
        RawXmlEvent::Other => e is Other,
    }
}

/// `out` are the events `raw` become, one for one.
pub open spec fn events_cooked<P: Fn(&str) -> Result<u64, String>>(
    parse: P,
    raw: Seq<RawXmlEvent>,
    out: Seq<XmlEvent>,
) -> bool {
    &&& out.len() == raw.len()
    &&& forall|i: int| 0 <= i < raw.len() ==> event_cooked(parse, raw[i], #[trigger] out[i])
}

fn copy_bytes(b: &Vec<u8>) -> (r: Vec<u8>)
    ensures
        r@ == b@,
{
    let mut r: Vec<u8> = Vec::new();
    let mut i: usize = 0;
    while i < b.len()
        invariant
            i <= b@.len(),
            r@ == b@.take(i as int),
        decreases b@.len() - i,
    {
        r.push(b[i]);
        i += 1;
        proof {
            assert(r@ =~= b@.take(i as int));
        }
    }
    proof {
        assert(b@.take(b@.len() as int) =~= b@);
    }
    r
}

fn cook_attribute<P: Fn(&str) -> Result<u64, String>>(
    raw: &Result<(Vec<u8>, Vec<u8>), String>,
    parse: &P,
) -> (a: XmlAttribute)
    requires
        forall|t: &str| parse.requires((t,)),
    ensures
        attribute_cooked(*parse, *raw, a),
{
    match raw {
        Err(m) => XmlAttribute::Malformed(m.clone()),
        Ok((k, v)) => {
            let value = utf8_text(v.as_slice());
            let number = match &value {
                Ok(s) => {
                    let t = s.as_str();
                    let n = parse(t);
                    proof {
                        assert(parse.ensures((t,), n));
                    }
                    n
                },
                Err(e) => Err(e.clone()),
            };
            XmlAttribute::Entry { key: copy_bytes(k), value, number }
        },
    }
}

fn cook_element<P: Fn(&str) -> Result<u64, String>>(raw: &RawElement, parse: &P) -> (x: XmlElement)
    requires
        forall|t: &str| parse.requires((t,)),
    ensures
        element_cooked(*parse, *raw, x),
{
    let mut attributes: Vec<XmlAttribute> = Vec::new();
    let mut i: usize = 0;
    let n = raw.1.len();
    while i < n
        invariant
            n == raw.1@.len(),
            i <= n,
            forall|t: &str| parse.requires((t,)),
            attributes@.len() == i,
            forall|j: int| 0 <= j < i ==> attribute_cooked(*parse, raw.1@[j], #[trigger] attributes@[j]),
            forall|j: int| 0 <= j < i ==> (#[trigger] raw.1@[j]) is Ok,
        decreases n - i,
    {
        let a = cook_attribute(&raw.1[i], parse);
        attributes.push(a);
        if raw.1[i].is_err() {
            let x = XmlElement { name: copy_bytes(&raw.0), attributes };
            proof {
                assert(forall|j: int| 0 <= j < x.attributes@.len() ==> attribute_cooked(*parse, raw.1@[j], #[trigger] x.attributes@[j]));
            }
            return x;
        }
        i += 1;
    }
    XmlElement { name: copy_bytes(&raw.0), attributes }
}

fn cook_event<P: Fn(&str) -> Result<u64, String>>(raw: &RawXmlEvent, parse: &P) -> (e: XmlEvent)
    requires
        forall|t: &str| parse.requires((t,)),
    ensures
        event_cooked(*parse, *raw, e),
{
    match raw {
        RawXmlEvent::Start(el) => XmlEvent::Start(cook_element(el, parse)),
        RawXmlEvent::Empty(el) => XmlEvent::Empty(cook_element(el, parse)),
        RawXmlEvent::Text(b) => XmlEvent::Text(utf8_text(b.as_slice())),
        RawXmlEvent::End(n) => XmlEvent::End(copy_bytes(n)),
        RawXmlEvent::Eof => XmlEvent::Eof,
        RawXmlEvent::Failed(m) => XmlEvent::Failed(m.clone()),
        RawXmlEvent::Other => XmlEvent::Other,
    }
}

/// The events the DDI reader consumes, from the tokeniser's events.
pub fn cook_events<P: Fn(&str) -> Result<u64, String>>(raw: &Vec<RawXmlEvent>, parse: &P) -> (r: Vec<
    XmlEvent,
>)
    requires
        forall|t: &str| parse.requires((t,)),
    ensures
        events_cooked(*parse, raw@, r@),
{
    let mut r: Vec<XmlEvent> = Vec::new();
    let mut i: usize = 0;
    while i < raw.len()
        invariant
            i <= raw@.len(),
            forall|t: &str| parse.requires((t,)),
            r@.len() == i,
            forall|j: int| 0 <= j < i ==> event_cooked(*parse, raw@[j], #[trigger] r@[j]),
        decreases raw@.len() - i,
    {
        let e = cook_event(&raw[i], parse);
        r.push(e);
        i += 1;
    }
    r
}

/// The events of the XML text `text`, as the DDI reader consumes them.
pub fn xml_events<P: Fn(&str) -> Result<u64, String>>(text: &[u8], parse: &P) -> (r: Vec<XmlEvent>)
    requires
        forall|t: &str| parse.requires((t,)),
    ensures
        events_cooked(*parse, xml_tokens(text@), r@),
{
    let raw = tokenize_xml(text);
    cook_events(&raw, parse)
}

} // verus!
