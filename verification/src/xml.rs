use vstd::prelude::*;
use vstd::utf8::{decode_utf8, valid_utf8};

use quick_xml::events::Event;
use quick_xml::Reader;

use crate::document::{DocumentMetadata, ParseError, ParseFailure, ParsedDocument, parse_outcome};
use crate::format::DocumentFormat;
use crate::text::{join, join_strings, lemma_trim_idempotent, strings_view, trim, trim_str};

verus! {

#[verifier::external_type_specification]
#[verifier::external_body]
#[verifier::reject_recursive_types(R)]
pub struct ExXmlReader<R>(Reader<R>);

/// One event of an XML pull parser, with the parts the text extraction reads.
pub enum XmlEvent {
    /// A start tag, by its raw qualified name.
    Start(Vec<u8>),
    /// An end tag, by its raw qualified name.
    End(Vec<u8>),
    /// Character data between tags, unescaped; None when unescaping failed.
    Text(Option<String>),
    /// Any other event: empty element tags, CDATA, comments, declarations,
    /// processing instructions, document type definitions.
    Other,
    /// The end of the document.
    Eof,
    /// A syntax error, by its message.
    Error(String),
}

/// An event after which the parser yields nothing more.
pub open spec fn is_terminal(e: XmlEvent) -> bool {
    e is Eof || e is Error
}

/// A stream that ends with its first and only terminal event.
pub open spec fn well_terminated(s: Seq<XmlEvent>) -> bool {
    &&& s.len() > 0
    &&& is_terminal(s.last())
    &&& forall|i: int| 0 <= i < s.len() - 1 ==> !is_terminal(#[trigger] s[i])
}

/// The events quick-xml reads from an XML text, up to and including the first
/// end of document or error.
pub uninterp spec fn xml_events(xml: Seq<char>) -> Seq<XmlEvent>;

/// The events a quick-xml reader will yield from its current state on, up to
/// and including the next end of document or error. What a reader yields
/// after that event is left unsaid (it goes on yielding the end of document;
/// after an ill-formed error it goes on parsing).
pub uninterp spec fn pending_events(reader: Reader<&[u8]>) -> Seq<XmlEvent>;

/// Calls `quick_xml::Reader::from_str` (default configuration). Claims that
/// the new reader will yield the events `xml_events` names for the text, and
/// that an end of document or an error comes among them: every read before
/// such an event consumes input, and at the end of the input the reader
/// yields the end of document.
#[verifier::external_body]
fn open_xml_reader(xml: &str) -> (reader: Reader<&[u8]>)
    ensures
        pending_events(reader) == xml_events(xml@),
        well_terminated(pending_events(reader)),
{
    Reader::from_str(xml)
}

/// Calls `quick_xml::Reader::read_event_into` with a fresh buffer and converts
/// the event: tag names as raw bytes, text through `BytesText::unescape`
/// (None where that fails), errors through their `Display` text. Claims that
/// the event is the first of the pending ones and, when it is neither the end
/// of document nor an error, that the rest stay pending. What is pending after
/// an end of document or an error is left unsaid.
#[verifier::external_body]
fn next_xml_event(reader: &mut Reader<&[u8]>) -> (ev: XmlEvent)
    requires
        pending_events(*old(reader)).len() > 0,
    ensures
        ev == pending_events(*old(reader))[0],
        !is_terminal(ev) ==> pending_events(*final(reader)) == pending_events(
            *old(reader),
        ).drop_first(),
{
    let mut buf = Vec::new();
    match reader.read_event_into(&mut buf) {
        Ok(Event::Start(e)) => XmlEvent::Start(e.name().as_ref().to_vec()),
        Ok(Event::End(e)) => XmlEvent::End(e.name().as_ref().to_vec()),
        Ok(Event::Text(e)) => match e.unescape() {
            Ok(t) => XmlEvent::Text(Some(t.into_owned())),
            Err(_) => XmlEvent::Text(None),
        },
        Ok(Event::Eof) => XmlEvent::Eof,
        Ok(_) => XmlEvent::Other,
        Err(e) => XmlEvent::Error(e.to_string()),
    }
}

/// The events of an XML text, up to and including the first end of document
/// or error.
pub fn read_xml_events(xml: &str) -> (events: Vec<XmlEvent>)
    ensures
        events@ == xml_events(xml@),
{
    let mut reader = open_xml_reader(xml);
    let ghost all = pending_events(reader);
    let mut events: Vec<XmlEvent> = Vec::new();
    loop
        invariant
            all == xml_events(xml@),
            well_terminated(all),
            all == events@ + pending_events(reader),
            pending_events(reader).len() > 0,
        decreases pending_events(reader).len(),
    {
        let ghost before = pending_events(reader);
        let ghost pos = events@.len();
        let ev = next_xml_event(&mut reader);
        assert(all[pos as int] == ev);
        let terminal = match ev {
            XmlEvent::Eof => true,
            XmlEvent::Error(_) => true,
            _ => false,
        };
        events.push(ev);
        if terminal {
            assert(pos == all.len() - 1);
            assert(events@ =~= all);
            return events;
        }
        assert(all == events@ + pending_events(reader)) by {
            assert(all =~= events@ + before.drop_first());
        }
    }
}

/// Whether two byte strings are equal.
pub(crate) fn bytes_eq(a: &[u8], b: &[u8]) -> (r: bool)
    ensures
        r == (a@ == b@),
{
    if a.len() != b.len() {
        return false;
    }
    let n = a.len();
    for i in 0..n
        invariant
            n == a@.len(),
            n == b@.len(),
            forall|j: int| 0 <= j < i ==> a@[j] == b@[j],
    {
        if a[i] != b[i] {
            return false;
        }
    }
    assert(a@ =~= b@);
    true
}

/// The trimmed, non-empty character data of an event stream, in order,
/// after `acc`; or the message of the first error. Reading stops at the end
/// of the document.
pub open spec fn xml_text_parts(events: Seq<XmlEvent>, acc: Seq<Seq<char>>) -> Result<
    Seq<Seq<char>>,
    Seq<char>,
>
    decreases events.len(),
{
    if events.len() == 0 {
        Ok(acc)
    } else {
        match events[0] {
            XmlEvent::Eof => Ok(acc),
            XmlEvent::Error(m) => Err(m@),
            XmlEvent::Text(Some(t)) => if trim(t@).len() > 0 {
                xml_text_parts(events.drop_first(), acc.push(trim(t@)))
            } else {
                xml_text_parts(events.drop_first(), acc)
            },
            _ => xml_text_parts(events.drop_first(), acc),
        }
    }
}

/// A non-empty piece with no white space around it.
pub open spec fn is_trimmed_piece(p: Seq<char>) -> bool {
    p.len() > 0 && trim(p) == p
}

proof fn lemma_xml_text_parts_trimmed(events: Seq<XmlEvent>, acc: Seq<Seq<char>>)
    requires
        forall|k: int| 0 <= k < acc.len() ==> is_trimmed_piece(#[trigger] acc[k]),
    ensures
        xml_text_parts(events, acc) matches Ok(parts) ==> forall|k: int|
            0 <= k < parts.len() ==> is_trimmed_piece(#[trigger] parts[k]),
    decreases events.len(),
{
    if events.len() > 0 {
        match events[0] {
            XmlEvent::Text(Some(t)) => {
                if trim(t@).len() > 0 {
                    lemma_trim_idempotent(t@);
                    let next = acc.push(trim(t@));
                    assert forall|k: int| 0 <= k < next.len() implies is_trimmed_piece(
                        #[trigger] next[k],
                    ) by {
                        if k < acc.len() {
                            assert(next[k] == acc[k]);
                        }
                    }
                    lemma_xml_text_parts_trimmed(events.drop_first(), next);
                } else {
                    lemma_xml_text_parts_trimmed(events.drop_first(), acc);
                }
            },
            XmlEvent::Eof => {},
            XmlEvent::Error(_) => {},
            _ => {
                lemma_xml_text_parts_trimmed(events.drop_first(), acc);
            },
        }
    }
}

/// Every line of a generic XML document's text is a non-empty piece of
/// character data with no white space around it.
pub proof fn lemma_xml_lines_trimmed(events: Seq<XmlEvent>)
    ensures
        xml_text_parts(events, Seq::empty()) matches Ok(parts) ==> forall|k: int|
            0 <= k < parts.len() ==> is_trimmed_piece(#[trigger] parts[k]),
{
    lemma_xml_text_parts_trimmed(events, Seq::empty());
}

/// The text of a generic XML document: its trimmed, non-empty character
/// data, one piece per line; or the message of the first error.
pub open spec fn xml_text(events: Seq<XmlEvent>) -> Result<Seq<char>, Seq<char>> {
    match xml_text_parts(events, Seq::empty()) {
        Ok(parts) => Ok(join(parts, "\n"@)),
        Err(m) => Err(m),
    }
}

/// The text of a generic XML document from its events (see `xml_text`).
pub fn text_of_xml_events(events: &[XmlEvent]) -> (r: Result<String, String>)
    ensures
        match r {
            Ok(t) => xml_text(events@) == Ok::<Seq<char>, Seq<char>>(t@),
            Err(m) => xml_text(events@) == Err::<Seq<char>, Seq<char>>(m@),
        },
{
    let mut parts: Vec<String> = Vec::new();
    let n = events.len();
    let mut i: usize = 0;
    assert(events@.skip(0) =~= events@);
    assert(strings_view(parts@) =~= Seq::<Seq<char>>::empty());
    while i < n
        invariant
            n == events@.len(),
            i <= n,
            xml_text_parts(events@, Seq::empty()) == xml_text_parts(
                events@.skip(i as int),
                strings_view(parts@),
            ),
        decreases n - i,
    {
        let ghost rest = events@.skip(i as int);
        assert(rest[0] == events@[i as int]);
        assert(rest.drop_first() =~= events@.skip(i + 1));
        match &events[i] {
            XmlEvent::Eof => {
                return Ok(join_strings(&parts, "\n"));
            },
            XmlEvent::Error(m) => {
                return Err(m.clone());
            },
            XmlEvent::Text(Some(t)) => {
                let trimmed = trim_str(t.as_str());
                if trimmed.unicode_len() > 0 {
                    let ghost old_parts = parts@;
                    parts.push(String::from_str(trimmed));
                    assert(strings_view(parts@) =~= strings_view(old_parts).push(trim(t@)));
                }
            },
            _ => {},
        }
        i = i + 1;
    }
    assert(events@.skip(n as int) =~= Seq::<XmlEvent>::empty());
    Ok(join_strings(&parts, "\n"))
}

/// The line an event contributes to a generic XML document's text: the
/// trimmed character data of a text event, when that is not empty.
pub open spec fn text_piece(e: XmlEvent) -> Option<Seq<char>> {
    match e {
        XmlEvent::Text(Some(t)) => if trim(t@).len() > 0 {
            Some(trim(t@))
        } else {
            None
        },
        _ => None,
    }
}

/// The lines the events contribute, in order, one per text event with
/// non-blank character data (repeated ones included).
pub open spec fn xml_pieces(events: Seq<XmlEvent>) -> Seq<Seq<char>> {
    events.filter_map(|e: XmlEvent| text_piece(e))
}

proof fn lemma_xml_prefix(pre: Seq<XmlEvent>, tail: Seq<XmlEvent>, i: int)
    requires
        0 <= i <= pre.len(),
        forall|k: int| 0 <= k < pre.len() ==> !is_terminal(#[trigger] pre[k]),
    ensures
        xml_text_parts(pre + tail, Seq::empty()) == xml_text_parts(
            (pre + tail).skip(i),
            xml_pieces(pre.take(i)),
        ),
    decreases i,
{
    if i == 0 {
        assert((pre + tail).skip(0) =~= pre + tail);
        assert(pre.take(0) =~= Seq::<XmlEvent>::empty());
        assert(xml_pieces(pre.take(0)) =~= Seq::<Seq<char>>::empty());
    } else {
        lemma_xml_prefix(pre, tail, i - 1);
        let s = (pre + tail).skip(i - 1);
        assert(s[0] == pre[i - 1]);
        assert(s.drop_first() =~= (pre + tail).skip(i));
        assert(!is_terminal(pre[i - 1]));
        assert(pre.take(i).drop_last() =~= pre.take(i - 1));
        assert(pre.take(i).last() == pre[i - 1]);
        let acc = xml_pieces(pre.take(i - 1));
        match text_piece(pre[i - 1]) {
            Some(p) => {
                assert(acc.push(p) =~= acc + seq![p]);
            },
            None => {},
        }
    }
}

/// The lines of a generic XML document's text are exactly the trimmed,
/// non-blank character data of its text events before the end of the
/// document, one line per such event, in order, repeated ones included; an
/// error before the end of the document fails with its message.
pub proof fn lemma_xml_text_lines(pre: Seq<XmlEvent>, tail: Seq<XmlEvent>)
    requires
        forall|k: int| 0 <= k < pre.len() ==> !is_terminal(#[trigger] pre[k]),
    ensures
        tail.len() == 0 ==> xml_text(pre + tail) == Ok::<Seq<char>, Seq<char>>(
            join(xml_pieces(pre), "\n"@),
        ),
        tail.len() > 0 && tail[0] is Eof ==> xml_text(pre + tail) == Ok::<Seq<char>, Seq<char>>(
            join(xml_pieces(pre), "\n"@),
        ),
        tail.len() > 0 ==> (tail[0] matches XmlEvent::Error(m) ==> xml_text(pre + tail) == Err::<
            Seq<char>,
            Seq<char>,
        >(m@)),
{
    lemma_xml_prefix(pre, tail, pre.len() as int);
    assert((pre + tail).skip(pre.len() as int) =~= tail);
    assert(pre.take(pre.len() as int) =~= pre);
}

/// Calls `String::from_utf8` on a copy of the bytes. Claims it succeeds
/// exactly on valid UTF-8, with the characters the bytes encode.
#[verifier::external_body]
fn decode_utf8_bytes(bytes: &[u8]) -> (r: Option<String>)
    ensures
        match r {
            Some(s) => valid_utf8(bytes@) && s@ == decode_utf8(bytes@),
            None => !valid_utf8(bytes@),
        },
{
    match String::from_utf8(bytes.to_vec()) {
        Ok(s) => Some(s),
        Err(_) => None,
    }
}

/// The outcome of parsing bytes as a generic XML document.
pub open spec fn xml_document(bytes: Seq<u8>) -> Result<(Seq<char>, DocumentMetadata), ParseFailure> {
    if !valid_utf8(bytes) {
        Err(ParseFailure::InvalidUtf8)
    } else {
        match xml_text(xml_events(decode_utf8(bytes))) {
            Ok(t) => Ok((t, DocumentMetadata { format: DocumentFormat::Xml, slide_count: None })),
            Err(m) => Err(ParseFailure::Format("XML parse error: "@ + m)),
        }
    }
}

/// An XML document's text is the text of the characters its bytes encode,
/// reported as XML with no slide count; bytes that are not UTF-8 fail as such.
pub proof fn lemma_xml_document_text(bytes: Seq<u8>)
    ensures
        !valid_utf8(bytes) ==> xml_document(bytes) == Err::<
            (Seq<char>, DocumentMetadata),
            ParseFailure,
        >(ParseFailure::InvalidUtf8),
        xml_document(bytes) matches Ok((t, m)) ==> (valid_utf8(bytes) && xml_text(
            xml_events(decode_utf8(bytes)),
        ) == Ok::<Seq<char>, Seq<char>>(t) && m.format == DocumentFormat::Xml
            && m.slide_count is None),
{
}

/// Parses a generic XML document: its text is its trimmed, non-empty
/// character data, one piece per line.
pub fn parse_xml(bytes: &[u8]) -> (r: Result<ParsedDocument, ParseError>)
    ensures
        parse_outcome(r) == xml_document(bytes@),
{
    let xml_str = match decode_utf8_bytes(bytes) {
        Some(s) => s,
        None => {
            return Err(ParseError::InvalidUtf8);
        },
    };
    let events = read_xml_events(xml_str.as_str());
    match text_of_xml_events(events.as_slice()) {
        Ok(text) => Ok(
            ParsedDocument {
                text,
                metadata: DocumentMetadata { format: DocumentFormat::Xml, slide_count: None },
            },
        ),
        Err(m) => {
            let mut msg = String::from_str("XML parse error: ");
            msg.append(m.as_str());
            Err(ParseError::Format(msg))
        },
    }
}

} // verus!
