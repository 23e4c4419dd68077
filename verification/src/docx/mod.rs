//! DOCX (OOXML wordprocessing) parsing.
//!
//! A `.docx` is a ZIP container of XML parts. Unlike PDF, it carries no page
//! geometry or coordinates: it is a logical stream of paragraphs and tables.
//! It is therefore lowered to a single synthetic page (index 0, size 0×0, no
//! chars) whose blocks hold all content in document order.
//!
//! Only two parts are consulted:
//! - `word/document.xml`: the body (paragraphs + tables); required.
//! - `word/styles.xml`: style-id → heading-level table; optional.
//!
//! Fatal problems (not a ZIP, missing `document.xml`, unreadable XML) surface as
//! [`PdfmuseError::Malformed`]; everything else degrades gracefully.

pub mod container;
pub mod document;
pub mod styles;
pub mod table;
pub mod xml;

use vstd::prelude::*;

use crate::docx::container::{open_archive, read_named_entry, zip_entries, zip_read, ArchiveView, EntryError, EntryView};
use crate::docx::document::{blocks_match, document_spec, parse_document, DocxBlockView};
use crate::docx::styles::{parse_styles, styles_spec, StyleMap};
use crate::error::{malformed_with, PdfmuseError};
use crate::ir::{Document, Metadata, Page, SourceKind};
use std::io::Cursor;
use zip::ZipArchive;

verus! {

/// Why a DOCX could not be parsed, as the contracts see it.
pub ghost enum DocxFailure {
    Malformed(Seq<char>),
    Io,
}

/// Reading the part `name`: its bytes, `None` when absent, or the failure.
pub open spec fn entry_outcome(c: ArchiveView, name: Seq<char>) -> Result<Option<Seq<u8>>, DocxFailure> {
    if !c.contains_key(name) {
        Ok(None)
    } else {
        match c[name] {
            EntryView::Data(d) => Ok(Some(d)),
            EntryView::LookupError(m) => Err(DocxFailure::Malformed("cannot read "@ + name + " from DOCX: "@ + m)),
            EntryView::ReadError => Err(DocxFailure::Io),
        }
    }
}

pub open spec fn document_part() -> Seq<char> {
    "word/document.xml"@
}

pub open spec fn styles_part() -> Seq<char> {
    "word/styles.xml"@
}

/// The body blocks of a `.docx`, or why it cannot be parsed: the container must
/// be a ZIP archive holding `word/document.xml`; `word/styles.xml`, when
/// present, must parse; the body must parse under its style table.
pub open spec fn docx_spec(data: Seq<u8>) -> Result<Seq<DocxBlockView>, DocxFailure> {
    match zip_read(data) {
        Err(m) => Err(DocxFailure::Malformed("not a valid DOCX (ZIP) container: "@ + m)),
        Ok(c) => match entry_outcome(c, document_part()) {
            Err(f) => Err(f),
            Ok(None) => Err(DocxFailure::Malformed("DOCX is missing word/document.xml"@)),
            Ok(Some(doc)) => {
                let styles = match entry_outcome(c, styles_part()) {
                    Err(f) => Err(f),
                    Ok(None) => Ok(Map::<Seq<char>, u8>::empty()),
                    Ok(Some(sx)) => match styles_spec(sx) {
                        Ok(m) => Ok(m),
                        Err(m) => Err(DocxFailure::Malformed(m)),
                    },
                };
                match styles {
                    Err(f) => Err(f),
                    Ok(sm) => match document_spec(doc, sm) {
                        Ok(vs) => Ok(vs),
                        Err(m) => Err(DocxFailure::Malformed(m)),
                    },
                }
            },
        },
    }
}

/// The error is the failure `f`.
pub open spec fn error_is(e: PdfmuseError, f: DocxFailure) -> bool {
    match f {
        DocxFailure::Malformed(m) => e matches PdfmuseError::Malformed(mm) && mm@ == m,
        DocxFailure::Io => e is Io,
    }
}

/// Read a part fully. Returns `Ok(None)` when the part is simply absent (so
/// optional parts don't error), and `Err` only on a genuine read failure.
fn read_entry(zip: &mut ZipArchive<Cursor<&[u8]>>, name: &str) -> (r: Result<Option<Vec<u8>>, PdfmuseError>)
    ensures
        zip_entries(*final(zip)) == zip_entries(*old(zip)),
        match entry_outcome(zip_entries(*old(zip)), name@) {
            Ok(None) => r matches Ok(None),
            Ok(Some(d)) => r matches Ok(Some(b)) && b@ == d,
            Err(f) => r matches Err(e) && error_is(e, f),
        },
{
    match read_named_entry(zip, name) {
        Ok(v) => Ok(v),
        Err(EntryError::Lookup(e)) => {
            let mut m = String::new();
            vstd::string::StringExecFns::append(&mut m, "cannot read ");
            vstd::string::StringExecFns::append(&mut m, name);
            vstd::string::StringExecFns::append(&mut m, " from DOCX: ");
            vstd::string::StringExecFns::append(&mut m, e.as_str());
            Err(PdfmuseError::Malformed(m))
        },
        Err(EntryError::Read(io)) => Err(PdfmuseError::Io(io)),
    }
}

/// The document is the single synthetic page of a DOCX holding `vs`.
pub open spec fn docx_document(d: Document, vs: Seq<DocxBlockView>) -> bool {
    &&& d.source == SourceKind::Docx
    &&& d.metadata.page_count == 1
    &&& d.metadata.title is None
    &&& d.warnings@.len() == 0
    &&& d.pages@.len() == 1
    &&& d.pages@[0].index == 0
    &&& d.pages@[0].width == 0
    &&& d.pages@[0].height == 0
    &&& d.pages@[0].chars@.len() == 0
    &&& d.pages@[0].lines@.len() == 0
    &&& d.pages@[0].rules@.len() == 0
    &&& d.pages@[0].rects@.len() == 0
    &&& blocks_match(d.pages@[0].blocks@, vs)
}

/// Parse the bytes of a `.docx` file into the unified IR.
pub fn parse(data: &[u8]) -> (r: Result<Document, PdfmuseError>)
    ensures
        match docx_spec(data@) {
            Ok(vs) => r matches Ok(d) && docx_document(d, vs),
            Err(f) => r matches Err(e) && error_is(e, f),
        },
{
    let mut zip = match open_archive(data) {
        Ok(z) => z,
        Err(e) => {
            return Err(malformed_with("not a valid DOCX (ZIP) container: ", e.as_str()));
        },
    };
    let document_xml = match read_entry(&mut zip, "word/document.xml")? {
        Some(bytes) => bytes,
        None => {
            let mut m = String::new();
            vstd::string::StringExecFns::append(&mut m, "DOCX is missing word/document.xml");
            return Err(PdfmuseError::Malformed(m));
        },
    };
    let styles = match read_entry(&mut zip, "word/styles.xml")? {
        Some(bytes) => parse_styles(bytes.as_slice())?,
        None => StyleMap::new(),
    };
    let blocks = parse_document(document_xml.as_slice(), &styles)?;
    let mut page = Page::empty(0, 0, 0);
    page.blocks = blocks;
    let mut pages: Vec<Page> = Vec::new();
    pages.push(page);
    Ok(Document {
        source: SourceKind::Docx,
        metadata: Metadata { page_count: 1, title: None },
        pages,
        warnings: Vec::new(),
    })
}

} // verus!
