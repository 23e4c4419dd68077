//! A pull cursor over the XML events of a document part.
//!
//! Tokenizing is done by `quick_xml`; each event is converted into plain
//! values ([`XmlEvent`]) that the DOCX readers decide on. Every event the
//! reader reports before the end consumes at least one byte of input, so a
//! part of `n` bytes reaches its end within `n + 1` events; the cursor reports
//! the end itself past that point.

use quick_xml::events::{BytesStart, Event};
use quick_xml::Reader;
use vstd::prelude::*;

verus! {

#[verifier::external_type_specification]
#[verifier::external_body]
pub struct ExBytesStart<'a>(BytesStart<'a>);

#[verifier::external_type_specification]
#[verifier::external_body]
#[verifier::reject_recursive_types(R)]
pub struct ExReader<R>(Reader<R>);

/// An attribute: its local name (prefix dropped) and its raw value decoded as
/// UTF-8 (invalid sequences replaced by U+FFFD).
pub struct XmlAttr {
    pub key: Vec<u8>,
    pub value: String,
}

/// A start or empty-element tag: its local name and its attributes in order,
/// `None` standing for an attribute the reader found malformed.
pub struct XmlTag {
    pub name: Vec<u8>,
    pub attrs: Vec<Option<XmlAttr>>,
}

/// One XML event as plain values.
pub enum XmlEvent {
    Start(XmlTag),
    Empty(XmlTag),
    /// An end tag's local name.
    End(Vec<u8>),
    /// Character data, unescaped (`Err` holds the reader's message when the
    /// text is not valid UTF-8 or holds an unknown entity).
    Text(Result<String, String>),
    Eof,
    /// Any other event (declarations, comments, CDATA, processing instructions).
    Other,
}

pub ghost struct XmlTagView {
    pub name: Seq<u8>,
    pub attrs: Seq<Option<(Seq<u8>, Seq<char>)>>,
}

pub ghost enum XmlEventView {
    Start(XmlTagView),
    Empty(XmlTagView),
    End(Seq<u8>),
    Text(Result<Seq<char>, Seq<char>>),
    Eof,
    Other,
}

pub open spec fn attr_view(a: Option<XmlAttr>) -> Option<(Seq<u8>, Seq<char>)> {
    match a {
        Some(x) => Some((x.key@, x.value@)),
        None => None,
    }
}

impl View for XmlTag {
    type V = XmlTagView;

    open spec fn view(&self) -> XmlTagView {
        XmlTagView { name: self.name@, attrs: self.attrs@.map_values(|a: Option<XmlAttr>| attr_view(a)) }
    }
}

impl View for XmlEvent {
    type V = XmlEventView;

    open spec fn view(&self) -> XmlEventView {
        match self {
            XmlEvent::Start(t) => XmlEventView::Start(t@),
            XmlEvent::Empty(t) => XmlEventView::Empty(t@),
            XmlEvent::End(n) => XmlEventView::End(n@),
            XmlEvent::Text(r) => XmlEventView::Text(
                match r {
                    Ok(s) => Ok(s@),
                    Err(e) => Err(e@),
                },
            ),
            XmlEvent::Eof => XmlEventView::Eof,
            XmlEvent::Other => XmlEventView::Other,
        }
    }
}

pub open spec fn event_result_view(r: Result<XmlEvent, String>) -> Result<XmlEventView, Seq<char>> {
    match r {
        Ok(e) => Ok(e@),
        Err(m) => Err(m@),
    }
}

/// The `index`-th event (0-based) that `quick_xml`'s reader reports for `xml`,
/// with the reader's message for an error.
pub uninterp spec fn xml_event_at(xml: Seq<u8>, index: nat) -> Result<XmlEventView, Seq<char>>;

/// The `k`-th event of `xml` as the cursor reports it: the reader's event,
/// or the end once more than `xml.len() + 1` events have been read.
pub open spec fn event_at(xml: Seq<u8>, k: int) -> Result<XmlEventView, Seq<char>> {
    if k > xml.len() {
        Ok(XmlEventView::Eof)
    } else {
        xml_event_at(xml, k as nat)
    }
}

/// A reader over an XML part together with the number of events read.
pub struct XmlCursor<'a> {
    reader: Reader<&'a [u8]>,
    buf: Vec<u8>,
    input: &'a [u8],
    count: u128,
}

impl<'a> XmlCursor<'a> {
    /// The bytes being read.
    pub closed spec fn input(&self) -> Seq<u8> {
        self.input@
    }

    /// How many events have been read.
    pub closed spec fn pos(&self) -> int {
        self.count as int
    }

    /// A cursor at the start of `xml`.
    pub fn open(xml: &'a [u8]) -> (c: XmlCursor<'a>)
        ensures
            c.input() == xml@,
            c.pos() == 0,
            c.input().len() <= usize::MAX,
    {
        let _n = xml.len();
        XmlCursor { reader: new_reader(xml), buf: Vec::new(), input: xml, count: 0 }
    }

    /// The next event, and the cursor moved past it.
    pub fn next(&mut self) -> (r: Result<XmlEvent, String>)
        ensures
            final(self).input() == old(self).input(),
            event_result_view(r) == event_at(old(self).input(), old(self).pos()),
            final(self).pos() == if old(self).pos() <= old(self).input().len() {
                old(self).pos() + 1
            } else {
                old(self).pos()
            },
    {
        if self.count > self.input.len() as u128 {
            return Ok(XmlEvent::Eof);
        }
        self.read_event()
    }

    /// `quick_xml::Reader::read_event_into` on the cursor's reader, with the
    /// event converted to plain values (tags by [`tag_of`], text unescaped by
    /// `BytesText::unescape`), and the event counted. The contract claims
    /// that the result is the `pos()`-th event of `input()`: the reader is
    /// made from `input()` by [`XmlCursor::open`], the fields are private,
    /// and this method, the only one that reads from the reader, counts
    /// every event it reads.
    #[verifier::external_body]
    fn read_event(&mut self) -> (r: Result<XmlEvent, String>)
        requires
            old(self).pos() < u128::MAX,
        ensures
            final(self).input() == old(self).input(),
            final(self).pos() == old(self).pos() + 1,
            event_result_view(r) == xml_event_at(old(self).input(), old(self).pos() as nat),
    {
        self.buf.clear();
        self.count += 1;
        match self.reader.read_event_into(&mut self.buf) {
            Ok(Event::Start(e)) => Ok(XmlEvent::Start(tag_of(&e))),
            Ok(Event::Empty(e)) => Ok(XmlEvent::Empty(tag_of(&e))),
            Ok(Event::End(e)) => Ok(XmlEvent::End(e.local_name().as_ref().to_vec())),
            Ok(Event::Text(e)) => Ok(XmlEvent::Text(e.unescape().map(|t| t.into_owned()).map_err(|x| x.to_string()))),
            Ok(Event::Eof) => Ok(XmlEvent::Eof),
            Ok(_) => Ok(XmlEvent::Other),
            Err(e) => Err(e.to_string()),
        }
    }
}

/// `quick_xml::Reader::from_reader` over a byte slice, with the default
/// configuration. Nothing is claimed of the reader itself.
#[verifier::external_body]
fn new_reader<'a>(xml: &'a [u8]) -> Reader<&'a [u8]> {
    Reader::from_reader(xml)
}

/// A start tag converted to plain values: `BytesStart::local_name` and
/// `BytesStart::attributes` (each attribute's local name, and its value
/// decoded by `String::from_utf8_lossy`; `None` for an attribute the reader
/// reports malformed). Nothing is claimed here; the claim is made of the whole
/// event by [`XmlCursor::read_event`].
#[verifier::external_body]
fn tag_of(e: &BytesStart) -> XmlTag {
    XmlTag {
        name: e.local_name().as_ref().to_vec(),
        attrs: e.attributes().map(|a| a.ok().map(|a| XmlAttr { key: a.key.local_name().as_ref().to_vec(), value: String::from_utf8_lossy(&a.value).into_owned() })).collect(),
    }
}

/// The value of the first well-formed attribute whose local name is `local`.
pub open spec fn attr_by_local_spec(attrs: Seq<Option<(Seq<u8>, Seq<char>)>>, local: Seq<u8>) -> Option<Seq<char>>
    decreases attrs.len(),
{
    if attrs.len() == 0 {
        None
    } else {
        match attrs[0] {
            Some((k, v)) => if k == local {
                Some(v)
            } else {
                attr_by_local_spec(attrs.skip(1), local)
            },
            None => attr_by_local_spec(attrs.skip(1), local),
        }
    }
}

/// Do the two byte runs hold the same bytes?
pub fn bytes_equal(a: &[u8], b: &[u8]) -> (r: bool)
    ensures
        r == (a@ == b@),
{
    if a.len() != b.len() {
        return false;
    }
    let mut i: usize = 0;
    while i < a.len()
        invariant
            a.len() == b.len(),
            i <= a.len(),
            a@.subrange(0, i as int) == b@.subrange(0, i as int),
        decreases a.len() - i,
    {
        if a[i] != b[i] {
            assert(a@[i as int] != b@[i as int]);
            return false;
        }
        i = i + 1;
        assert(a@.subrange(0, i as int) =~= a@.subrange(0, i - 1).push(a@[i - 1]));
        assert(b@.subrange(0, i as int) =~= b@.subrange(0, i - 1).push(b@[i - 1]));
    }
    assert(a@ =~= a@.subrange(0, a@.len() as int));
    assert(b@ =~= b@.subrange(0, b@.len() as int));
    true
}

/// Look up an attribute by its local name (namespace prefix ignored).
pub fn attr_by_local(tag: &XmlTag, local: &[u8]) -> (v: Option<String>)
    ensures
        match v {
            Some(s) => attr_by_local_spec(tag@.attrs, local@) == Some(s@),
            None => attr_by_local_spec(tag@.attrs, local@) is None,
        },
{
    let ghost av = tag@.attrs;
    let mut i: usize = 0;
    assert(av.skip(0) =~= av);
    while i < tag.attrs.len()
        invariant
            av == tag@.attrs,
            i <= tag.attrs@.len(),
            attr_by_local_spec(av.skip(i as int), local@) == attr_by_local_spec(av, local@),
        decreases tag.attrs@.len() - i,
    {
        assert(av.skip(i as int)[0] == attr_view(tag.attrs@[i as int]));
        assert(av.skip(i as int).skip(1) =~= av.skip(i + 1));
        match &tag.attrs[i] {
            Some(a) => {
                if bytes_equal(a.key.as_slice(), local) {
                    return Some(a.value.clone());
                }
            },
            None => {},
        }
        i = i + 1;
    }
    None
}

} // verus!
