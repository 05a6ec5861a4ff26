//! Reads a mod's `Metadata.xml`: a flat `<Metadata><Author/><Version/></Metadata>`
//! document, with `"Unknown"` for either field when it is missing. Malformed XML does
//! not fail: it gives the defaults, `"Unknown"` for both fields.
//!
//! The document is read as a stream of events (`quick_xml`, text trimmed); the text of
//! an event belongs to the element most recently opened and not yet closed, and the last
//! text seen for `Author` or `Version` wins.
use vstd::prelude::*;

use crate::store::{default_unknown, unknown_text};
use crate::text::{str_eq, string_from_chars};

verus! {

/// Parsed mod metadata.
#[derive(Debug, Clone, PartialEq, Eq)]
pub struct ModMetadata {
    pub author: String,
    pub version: String,
}

impl Default for ModMetadata {
    fn default() -> (m: Self)
        ensures
            m.author@ == unknown_text(),
            m.version@ == unknown_text(),
    {
        ModMetadata { author: default_unknown(), version: default_unknown() }
    }
}

/// One event of the XML stream, as far as the metadata reader looks at it.
#[derive(Debug, Clone, PartialEq, Eq)]
pub enum XmlEvent {
    /// An opening tag, with its (qualified) name.
    Start(String),
    /// Text content, as written in the document (entities not yet resolved); `None`
    /// when it is not valid UTF-8.
    Text(Option<String>),
    /// A closing tag.
    End,
    /// The end of the document.
    Eof,
    /// A syntax error: reading stops here.
    Error,
    /// Any other event (declarations, comments, empty elements, ...).
    Other,
}

#[verifier::external_type_specification]
#[verifier::external_body]
#[verifier::reject_recursive_types(R)]
pub struct ExXmlReader<R>(quick_xml::reader::Reader<R>);

/// The events that `quick_xml`'s reader, with text trimming on, gives for a document,
/// from its start up to and including the first end of document or error. The
/// document is finite and every other event consumes some of it, so the reader gets
/// there.
pub uninterp spec fn xml_events(doc: Seq<char>) -> Seq<XmlEvent>;

/// A reader over a document, with the document and the number of events read so far.
pub struct XmlStream<'a> {
    reader: quick_xml::reader::Reader<&'a [u8]>,
    doc: Ghost<Seq<char>>,
    read: Ghost<nat>,
    trimmed: Ghost<bool>,
}

/// The text with its character and predefined entity references resolved, as
/// `quick_xml::escape::unescape` gives it; `None` when a reference is malformed.
pub uninterp spec fn xml_unescaped(raw: Seq<char>) -> Option<Seq<char>>;

/// Whether a text holds no `&`, so no reference can start in it.
pub open spec fn holds_no_reference(raw: Seq<char>) -> bool {
    !raw.contains('&')
}

/// `quick_xml::escape::unescape`: resolves character and predefined entity references.
/// Claims: the result is `xml_unescaped` of the text, and text without an `&` is given
/// back as it is (the function then returns its argument borrowed).
#[verifier::external_body]
fn xml_unescape(raw: &str) -> (r: Option<String>)
    ensures
        match r {
            Some(t) => xml_unescaped(raw@) == Some(t@),
            None => xml_unescaped(raw@) is None,
        },
        holds_no_reference(raw@) ==> r is Some && r.unwrap()@ == raw@,
{
    quick_xml::escape::unescape(raw).ok().map(|t| t.into_owned())
}

/// `quick_xml::reader::Reader::from_str`: a reader at the start of the document.
/// Claims: the stream is over `xml` and has read nothing, and the document's events
/// (`xml_events`) are not empty.
#[verifier::external_body]
fn xml_stream<'a>(xml: &'a str) -> (s: XmlStream<'a>)
    ensures
        s.doc@ == xml@,
        s.read@ == 0,
        !s.trimmed@,
        xml_events(s.doc@).len() > 0,
{
    XmlStream {
        reader: quick_xml::reader::Reader::from_str(xml),
        doc: Ghost(xml@),
        read: Ghost(0),
        trimmed: Ghost(false),
    }
}

/// `Config::trim_text(true)` on the reader's configuration (reached through
/// `config_mut`): whitespace around text is dropped and whitespace-only text is
/// skipped. Claims: the stream now reads with trimming on, and is otherwise as before.
#[verifier::external_body]
fn xml_trim_text<'a>(s: &mut XmlStream<'a>)
    ensures
        final(s).doc == old(s).doc,
        final(s).read == old(s).read,
        final(s).trimmed@,
{
    s.reader.config_mut().trim_text(true);
}

/// `Reader::read_event_into`: the next event of the document, converted to an
/// `XmlEvent` (a start tag keeps its name, read lossily as UTF-8; text keeps its raw
/// content as UTF-8 when it is). Claims: on a trimming stream that has not passed the
/// end, the event is the next one of `xml_events`, and it ends reading exactly when it
/// is the last of them.
#[verifier::external_body]
fn xml_next_event<'a>(s: &mut XmlStream<'a>) -> (e: XmlEvent)
    requires
        old(s).trimmed@,
        old(s).read@ < xml_events(old(s).doc@).len(),
    ensures
        e == xml_events(old(s).doc@)[old(s).read@ as int],
        is_stop(e) <==> old(s).read@ + 1 == xml_events(old(s).doc@).len(),
        final(s).doc == old(s).doc,
        final(s).read@ == old(s).read@ + 1,
        final(s).trimmed == old(s).trimmed,
{
    let mut buf = Vec::new();
    match s.reader.read_event_into(&mut buf) {
        Ok(quick_xml::events::Event::Start(e)) => XmlEvent::Start(
            String::from_utf8_lossy(e.name().as_ref()).into_owned(),
        ),
        Ok(quick_xml::events::Event::Text(e)) => XmlEvent::Text(
            String::from_utf8(e.into_inner().into_owned()).ok(),
        ),
        Ok(quick_xml::events::Event::End(_)) => XmlEvent::End,
        Ok(quick_xml::events::Event::Eof) => XmlEvent::Eof,
        Ok(_) => XmlEvent::Other,
        Err(_) => XmlEvent::Error,
    }
}

/// Whether reading stops at this event.
pub open spec fn is_stop(e: XmlEvent) -> bool {
    e is Eof || e is Error
}

/// The text an event carries once its references are resolved; empty when it is not
/// UTF-8 or a reference is malformed.
pub open spec fn event_text(raw: Option<String>) -> Seq<char> {
    match raw {
        Some(r) => match xml_unescaped(r@) {
            Some(t) => t,
            None => Seq::empty(),
        },
        None => Seq::empty(),
    }
}

/// The text of a text event: with its references resolved, or, when `as_written`, as
/// it stands in the document (empty when it is not UTF-8).
pub open spec fn text_value(raw: Option<String>, as_written: bool) -> Seq<char> {
    if as_written {
        match raw {
            Some(r) => r@,
            None => Seq::empty(),
        }
    } else {
        event_text(raw)
    }
}

/// Whether no text event holds an `&`, so none has a reference to resolve.
pub open spec fn texts_hold_no_reference(events: Seq<XmlEvent>) -> bool {
    forall|i: int|
        0 <= i < events.len() ==> (#[trigger] events[i] matches XmlEvent::Text(Some(r))
            ==> holds_no_reference(r@))
}

/// Where reading stands after a sequence of events: whether it has stopped, the
/// element whose text is expected, and the author and version found so far.
pub struct ScanState {
    pub stopped: bool,
    pub tag: Option<Seq<char>>,
    pub author: Seq<char>,
    pub version: Seq<char>,
}

/// The reading state after `events`, taking texts by `text_value`.
pub open spec fn scan_by(events: Seq<XmlEvent>, as_written: bool) -> ScanState
    decreases events.len(),
{
    if events.len() == 0 {
        ScanState { stopped: false, tag: None, author: unknown_text(), version: unknown_text() }
    } else {
        let s = scan_by(events.drop_last(), as_written);
        if s.stopped {
            s
        } else {
            match events.last() {
                XmlEvent::Eof => ScanState { stopped: true, ..s },
                XmlEvent::Error => ScanState {
                    stopped: true,
                    tag: None,
                    author: unknown_text(),
                    version: unknown_text(),
                },
                XmlEvent::Start(name) => ScanState { tag: Some(name@), ..s },
                XmlEvent::End => ScanState { tag: None, ..s },
                XmlEvent::Text(raw) => match s.tag {
                    Some(t) => if t == "Author"@ {
                        ScanState { author: text_value(raw, as_written), ..s }
                    } else if t == "Version"@ {
                        ScanState { version: text_value(raw, as_written), ..s }
                    } else {
                        s
                    },
                    None => s,
                },
                XmlEvent::Other => s,
            }
        }
    }
}

/// The reading state after `events`, with references resolved.
pub open spec fn scan(events: Seq<XmlEvent>) -> ScanState {
    scan_by(events, false)
}

/// The metadata read from a stream of events. When no text holds an `&`, the texts
/// are taken as written.
pub fn metadata_from_events(events: &[XmlEvent]) -> (m: ModMetadata)
    ensures
        m.author@ == scan(events@).author,
        m.version@ == scan(events@).version,
        texts_hold_no_reference(events@) ==> m.author@ == scan_by(events@, true).author
            && m.version@ == scan_by(events@, true).version,
{
    let mut tag: Option<String> = None;
    let mut author = default_unknown();
    let mut version = default_unknown();
    let mut i: usize = 0;
    proof {
        assert(events@.take(events@.len() as int) =~= events@);
    }
    while i < events.len()
        invariant_except_break
            !scan(events@.take(i as int)).stopped,
            match tag {
                Some(t) => scan(events@.take(i as int)).tag == Some(t@),
                None => scan(events@.take(i as int)).tag is None,
            },
            author@ == scan(events@.take(i as int)).author,
            version@ == scan(events@.take(i as int)).version,
            texts_hold_no_reference(events@.take(i as int)) ==> author@ == scan_by(
                events@.take(i as int),
                true,
            ).author && version@ == scan_by(events@.take(i as int), true).version,
        invariant
            i <= events@.len(),
            events@.take(events@.len() as int) == events@,
        ensures
            author@ == scan(events@).author,
            version@ == scan(events@).version,
            texts_hold_no_reference(events@) ==> author@ == scan_by(events@, true).author
                && version@ == scan_by(events@, true).version,
        decreases events@.len() - i,
    {
        proof {
            assert(events@.take(i + 1).drop_last() =~= events@.take(i as int));
            assert(events@.take(i + 1).last() == events@[i as int]);
            lemma_scan_shape(events@.take(i as int));
            lemma_no_reference_prefix(events@, i as int + 1);
            lemma_no_reference_prefix(events@.take(i + 1), i as int);
            assert(events@.take(i + 1).take(i as int) =~= events@.take(i as int));
        }
        match &events[i] {
            XmlEvent::Eof => {
                proof {
                    lemma_scan_stays_stopped(events@, i as int + 1, false);
                    lemma_scan_stays_stopped(events@, i as int + 1, true);
                }
                break;
            },
            XmlEvent::Error => {
                author = default_unknown();
                version = default_unknown();
                proof {
                    lemma_scan_stays_stopped(events@, i as int + 1, false);
                    lemma_scan_stays_stopped(events@, i as int + 1, true);
                }
                break;
            },
            XmlEvent::Start(name) => {
                tag = Some(name.clone());
            },
            XmlEvent::End => {
                tag = None;
            },
            XmlEvent::Text(raw) => {
                let is_author;
                let is_version;
                match &tag {
                    Some(t) => {
                        is_author = str_eq(t.as_str(), "Author");
                        is_version = str_eq(t.as_str(), "Version");
                    },
                    None => {
                        is_author = false;
                        is_version = false;
                    },
                }
                if is_author || is_version {
                    let text = match raw {
                        Some(r) => match xml_unescape(r.as_str()) {
                            Some(t) => t,
                            None => string_from_chars(&[]),
                        },
                        None => string_from_chars(&[]),
                    };
                    proof {
                        if texts_hold_no_reference(events@.take(i + 1)) {
                            assert(events@.take(i + 1)[i as int] == events@[i as int]);
                        }
                    }
                    if is_author {
                        author = text;
                    } else {
                        version = text;
                    }
                }
            },
            XmlEvent::Other => {},
        }
        i = i + 1;
        proof {
            if i == events@.len() {
                assert(events@.take(i as int) =~= events@);
            }
        }
    }
    ModMetadata { author, version }
}

/// A document whose reading meets an error before its end gives the defaults: both
/// fields `"Unknown"`, whatever was read before the error.
pub proof fn law_malformed_gives_defaults(events: Seq<XmlEvent>, e: int, as_written: bool)
    requires
        0 <= e < events.len(),
        events[e] is Error,
        forall|i: int| 0 <= i < e ==> !(#[trigger] events[i] is Eof),
    ensures
        scan_by(events, as_written).author == unknown_text(),
        scan_by(events, as_written).version == unknown_text(),
{
    lemma_no_stop_before(events, e, as_written);
    assert(events.take(e + 1).drop_last() =~= events.take(e));
    assert(events.take(e + 1).last() == events[e]);
    lemma_scan_stays_stopped(events, e + 1, as_written);
}

/// Before the first end or error, reading has not stopped; an error before any end
/// is the first stop.
proof fn lemma_no_stop_before(events: Seq<XmlEvent>, n: int, as_written: bool)
    requires
        0 <= n < events.len(),
        forall|i: int| 0 <= i < n ==> !(#[trigger] events[i] is Eof),
    ensures
        !scan_by(events.take(n), as_written).stopped || (exists|i: int|
            0 <= i < n && #[trigger] events[i] is Error && scan_by(events.take(n), as_written).author
                == unknown_text() && scan_by(events.take(n), as_written).version == unknown_text()),
    decreases n,
{
    if n > 0 {
        lemma_no_stop_before(events, n - 1, as_written);
        assert(events.take(n).drop_last() =~= events.take(n - 1));
        assert(events.take(n).last() == events[n - 1]);
        if scan_by(events.take(n - 1), as_written).stopped {
            let i = choose|i: int| 0 <= i < n - 1 && #[trigger] events[i] is Error && scan_by(
                events.take(n - 1),
                as_written,
            ).author == unknown_text() && scan_by(events.take(n - 1), as_written).version
                == unknown_text();
            assert(events[i] is Error);
        } else if events[n - 1] is Error {
            assert(events[n - 1] is Error);
        }
    }
}

/// Whether reading has stopped, and the element whose text is expected, do not depend
/// on how texts are taken.
proof fn lemma_scan_shape(events: Seq<XmlEvent>)
    ensures
        scan_by(events, true).stopped == scan_by(events, false).stopped,
        scan_by(events, true).tag == scan_by(events, false).tag,
    decreases events.len(),
{
    if events.len() > 0 {
        lemma_scan_shape(events.drop_last());
    }
}

/// A prefix of events without references has none either.
proof fn lemma_no_reference_prefix(events: Seq<XmlEvent>, n: int)
    requires
        0 <= n <= events.len(),
    ensures
        texts_hold_no_reference(events) ==> texts_hold_no_reference(events.take(n)),
{
    if texts_hold_no_reference(events) {
        assert forall|i: int| 0 <= i < events.take(n).len() implies (#[trigger] events.take(
            n,
        )[i] matches XmlEvent::Text(Some(r)) ==> holds_no_reference(r@)) by {
            assert(events.take(n)[i] == events[i]);
        }
    }
}

/// Once reading has stopped, later events change nothing.
proof fn lemma_scan_stays_stopped(events: Seq<XmlEvent>, n: int, as_written: bool)
    requires
        0 < n <= events.len(),
        scan_by(events.take(n), as_written).stopped,
    ensures
        scan_by(events, as_written) == scan_by(events.take(n), as_written),
    decreases events.len() - n,
{
    if n < events.len() {
        assert(events.take(n + 1).drop_last() =~= events.take(n));
        lemma_scan_stays_stopped(events, n + 1, as_written);
    } else {
        assert(events.take(n) =~= events);
    }
}

/// The events of a document, read until its end or the first error.
pub fn read_xml_events(xml: &str) -> (events: Vec<XmlEvent>)
    ensures
        events@ == xml_events(xml@),
{
    let mut stream = xml_stream(xml);
    xml_trim_text(&mut stream);
    let mut events: Vec<XmlEvent> = Vec::new();
    loop
        invariant
            stream.doc@ == xml@,
            stream.trimmed@,
            stream.read@ < xml_events(xml@).len(),
            events@ == xml_events(xml@).take(stream.read@ as int),
        decreases xml_events(xml@).len() - stream.read@,
    {
        let event = xml_next_event(&mut stream);
        let stop = match event {
            XmlEvent::Eof => true,
            XmlEvent::Error => true,
            _ => false,
        };
        events.push(event);
        proof {
            assert(events@ =~= xml_events(xml@).take(stream.read@ as int));
        }
        if stop {
            proof {
                assert(events@ =~= xml_events(xml@));
            }
            return events;
        }
    }
}

/// Parses the contents of a `Metadata.xml` file: the fields read from the document's
/// events. Either field is `"Unknown"` when the document does not give it, and both
/// are when the document is malformed. Texts without an `&` are taken as written.
pub fn parse_metadata_xml(xml: &str) -> (m: ModMetadata)
    ensures
        m.author@ == scan(xml_events(xml@)).author,
        m.version@ == scan(xml_events(xml@)).version,
        texts_hold_no_reference(xml_events(xml@)) ==> m.author@ == scan_by(
            xml_events(xml@),
            true,
        ).author && m.version@ == scan_by(xml_events(xml@), true).version,
{
    let events = read_xml_events(xml);
    metadata_from_events(events.as_slice())
}

} // verus!

