//! Reading XML with quick-xml, as plain values.
//!
//! The reader is quick-xml's, told whether to trim text, and read from a byte
//! slice. What it yields is named rather than described: the event stream of
//! some bytes is [`xml_events`], a function of the bytes and the trimming
//! setting alone, what a reader has yet to yield is [`xml_pending`], and the
//! attributes a tag holds are [`xml_tag_attrs`]. The logic that walks the events is this
//! library's own and is verified against those names.

use vstd::prelude::*;
use quick_xml::Reader;
use quick_xml::events::BytesStart;
use quick_xml::events::Event::{CData, Comment, Decl, DocType, Empty, End, Eof, GeneralRef, Start, Text, PI};

verus! {

#[verifier::external_type_specification]
#[verifier::external_body]
#[verifier::reject_recursive_types(R)]
pub struct ExReader<R>(Reader<R>);

#[verifier::external_type_specification]
#[verifier::external_body]
pub struct ExBytesStart<'a>(BytesStart<'a>);

/// The attributes a start or empty-element tag holds, in document order, each
/// as raw key and value bytes, or `None` where quick-xml refused one.
pub uninterp spec fn xml_tag_attrs(t: BytesStart<'static>) -> Seq<Option<(Seq<u8>, Seq<u8>)>>;

/// One event of the reader, its payload as raw bytes.
pub enum XmlEvent {
    /// A start tag: its name, and the tag itself for its attributes.
    Start(Vec<u8>, BytesStart<'static>),
    /// An empty-element tag, in the same form.
    Empty(Vec<u8>, BytesStart<'static>),
    /// An end tag's name.
    End(Vec<u8>),
    /// Character data, still escaped, already trimmed by the reader.
    Text(Vec<u8>),
    /// A CDATA section's content.
    CData(Vec<u8>),
    /// A comment's content.
    Comment(Vec<u8>),
    /// The XML declaration.
    Decl,
    /// A processing instruction's content.
    Pi(Vec<u8>),
    /// A document type declaration's content.
    DocType(Vec<u8>),
    /// A general reference's name.
    GeneralRef(Vec<u8>),
    /// The end of the document.
    Eof,
    /// The reader refused the input here.
    Error,
}

/// The mathematical content of an event.
pub enum XmlEventView {
    Start(Seq<u8>, Seq<Option<(Seq<u8>, Seq<u8>)>>),
    Empty(Seq<u8>, Seq<Option<(Seq<u8>, Seq<u8>)>>),
    End(Seq<u8>),
    Text(Seq<u8>),
    CData(Seq<u8>),
    Comment(Seq<u8>),
    Decl,
    Pi(Seq<u8>),
    DocType(Seq<u8>),
    GeneralRef(Seq<u8>),
    Eof,
    Error,
}

impl View for XmlEvent {
    type V = XmlEventView;

    open spec fn view(&self) -> XmlEventView {
        match self {
            XmlEvent::Start(n, t) => XmlEventView::Start(n@, xml_tag_attrs(*t)),
            XmlEvent::Empty(n, t) => XmlEventView::Empty(n@, xml_tag_attrs(*t)),
            XmlEvent::End(n) => XmlEventView::End(n@),
            XmlEvent::Text(t) => XmlEventView::Text(t@),
            XmlEvent::CData(t) => XmlEventView::CData(t@),
            XmlEvent::Comment(t) => XmlEventView::Comment(t@),
            XmlEvent::Decl => XmlEventView::Decl,
            XmlEvent::Pi(t) => XmlEventView::Pi(t@),
            XmlEvent::DocType(t) => XmlEventView::DocType(t@),
            XmlEvent::GeneralRef(t) => XmlEventView::GeneralRef(t@),
            XmlEvent::Eof => XmlEventView::Eof,
            XmlEvent::Error => XmlEventView::Error,
        }
    }
}

/// Whether reading stops at this event: the end, or a refusal.
pub open spec fn is_terminal(e: XmlEventView) -> bool {
    e is Eof || e is Error
}

/// A stream that ends at its first terminal event and nowhere else.
pub open spec fn well_terminated(s: Seq<XmlEventView>) -> bool {
    &&& s.len() > 0
    &&& is_terminal(s.last())
    &&& forall|i: int| 0 <= i < s.len() - 1 ==> !is_terminal(#[trigger] s[i])
}

/// The events quick-xml's reader yields for some bytes, with text trimming on
/// or off, up to and including the first end-of-document or error.
pub uninterp spec fn xml_events(data: Seq<u8>, trim: bool) -> Seq<XmlEventView>;

/// The events a reader has yet to yield, up to and including the first
/// end-of-document or error.
pub uninterp spec fn xml_pending(r: Reader<&[u8]>) -> Seq<XmlEventView>;

/// `Reader::from_reader` over a byte slice, configured with `trim_text`.
/// Claimed: the reader will yield the named event stream of the bytes under
/// that setting, and that stream ends at its first end-of-document or error
/// (a slice reader consumes input on every event and reports the end of
/// input as end-of-document).
#[verifier::external_body]
pub(crate) fn xml_reader(data: &[u8], trim: bool) -> (r: Reader<&[u8]>)
    ensures
        xml_pending(r) == xml_events(data@, trim),
        well_terminated(xml_pending(r)),
{
    let mut r = Reader::from_reader(data);
    r.config_mut().trim_text(trim);
    r
}

/// `Reader::read_event`, one event converted: tag names with the tag kept
/// for its attributes, and the raw bytes of every other event as the event
/// dereferences to them. Claimed: it is the next pending event.
#[verifier::external_body]
pub(crate) fn next_event(r: &mut Reader<&[u8]>) -> (e: XmlEvent)
    requires
        xml_pending(*old(r)).len() > 0,
    ensures
        e@ == xml_pending(*old(r))[0],
        xml_pending(*final(r)) == xml_pending(*old(r)).drop_first(),
{
    let e = match r.read_event() { Ok(e) => e.into_owned(), Err(_) => return XmlEvent::Error };
    let b = e.to_vec();
    match e {
        Start(t) => XmlEvent::Start(t.name().0.to_vec(), t),
        Empty(t) => XmlEvent::Empty(t.name().0.to_vec(), t),
        End(_) => XmlEvent::End(b),
        Text(_) => XmlEvent::Text(b),
        CData(_) => XmlEvent::CData(b),
        Comment(_) => XmlEvent::Comment(b),
        Decl(_) => XmlEvent::Decl,
        PI(_) => XmlEvent::Pi(b),
        DocType(_) => XmlEvent::DocType(b),
        GeneralRef(_) => XmlEvent::GeneralRef(b),
        Eof => XmlEvent::Eof,
    }
}

/// `BytesStart::attributes`, each attribute converted to its raw key and
/// value bytes, a refused one to `None`. Claimed: the attributes the tag
/// holds.
#[verifier::external_body]
pub(crate) fn tag_attrs(t: &BytesStart<'static>) -> (v: Vec<RawAttr>)
    ensures
        attr_views(v@) == xml_tag_attrs(*t),
{
    t.attributes().map(|a| a.ok().map(|a| (a.key.0.to_vec(), a.value.to_vec()))).collect()
}

/// One attribute as raw key and value bytes, or `None` where quick-xml
/// refused it.
pub type RawAttr = Option<(Vec<u8>, Vec<u8>)>;

/// The view of an attribute.
pub open spec fn attr_view(a: RawAttr) -> Option<(Seq<u8>, Seq<u8>)> {
    match a {
        Some((k, v)) => Some((k@, v@)),
        None => None,
    }
}

/// The views of a tag's attributes.
pub open spec fn attr_views(v: Seq<RawAttr>) -> Seq<Option<(Seq<u8>, Seq<u8>)>> {
    Seq::new(v.len(), |i: int| attr_view(v[i]))
}

} // verus!
