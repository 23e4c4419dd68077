//! What the PDF path records for each page: warnings for damaged content,
//! and the naive page built from a page's extracted text.

use vstd::prelude::*;
use vstd::string::StringExecFns;

use crate::docx::styles::{trim_chars, trim_spec};
use crate::ir::{BBox, Block, Page, Paragraph, Warning, WarningKind};
use crate::text::{chars_of, string_from_chars};

verus! {

/// A document-level warning: an object was damaged and skipped.
pub fn malformed(detail: String) -> (w: Warning)
    ensures
        w.page is None,
        w.kind == WarningKind::MalformedObject,
        w.detail == detail,
{
    Warning { page: None, kind: WarningKind::MalformedObject, detail }
}

/// A warning about damaged content on page `page`.
pub fn warn(page: u32, detail: String) -> (w: Warning)
    ensures
        w.page == Some(page),
        w.kind == WarningKind::MalformedObject,
        w.detail == detail,
{
    Warning { page: Some(page), kind: WarningKind::MalformedObject, detail }
}

/// The 0-based index of the 1-based page `page_number` (0 stays 0).
pub open spec fn page_index(page_number: u32) -> u32 {
    if page_number > 0 {
        (page_number - 1) as u32
    } else {
        0
    }
}

/// A result's text, as the contracts see it.
pub open spec fn text_result(r: Result<String, String>) -> Result<Seq<char>, Seq<char>> {
    match r {
        Ok(t) => Ok(t@),
        Err(e) => Err(e@),
    }
}

/// A warning as the contracts see it: its page, kind and text.
pub open spec fn warning_view(w: Warning) -> (Option<u32>, WarningKind, Seq<char>) {
    (w.page, w.kind, w.detail@)
}

/// The naive page of the 1-based `page_number`: its 0-based index, its
/// size, and one paragraph holding the extracted text trimmed, when that is
/// not empty; nothing else.
pub open spec fn naive_page_fits(
    page: Page,
    page_number: u32,
    width: i32,
    height: i32,
    extracted: Result<Seq<char>, Seq<char>>,
) -> bool {
    &&& page.index == page_index(page_number)
    &&& page.width == width
    &&& page.height == height
    &&& page.chars@.len() == 0
    &&& page.lines@.len() == 0
    &&& page.rules@.len() == 0
    &&& page.rects@.len() == 0
    &&& match extracted {
        Ok(text) => {
            &&& trim_spec(text).len() == 0 ==> page.blocks@.len() == 0
            &&& trim_spec(text).len() > 0 ==> page.blocks@.len() == 1
            &&& trim_spec(text).len() > 0 ==> (page.blocks@[0] matches Block::Paragraph(p) && p.text@
                == trim_spec(text) && p.bbox == (BBox { x0: 0, y0: 0, x1: 0, y1: 0 }) && p.heading_level is None
                && p.role is None)
        },
        Err(_) => page.blocks@.len() == 0,
    }
}

/// The warning a page's extraction leaves: none when it succeeded, else a
/// `MalformedObject` warning on the page naming the reason.
pub open spec fn naive_warning(page_number: u32, extracted: Result<Seq<char>, Seq<char>>) -> Option<
    (Option<u32>, WarningKind, Seq<char>),
> {
    match extracted {
        Ok(_) => None,
        Err(reason) => Some(
            (Some(page_index(page_number)), WarningKind::MalformedObject, "text extraction failed: "@ + reason),
        ),
    }
}

/// The naive page for the 1-based `page_number` of a document: its 0-based
/// index, its size, and one paragraph holding the page's extracted text
/// trimmed, when that is not empty. When extraction failed with `reason`,
/// the page stays empty and a warning is recorded instead.
pub fn naive_page(page_number: u32, width: i32, height: i32, extracted: Result<String, String>) -> (r: (
    Page,
    Option<Warning>,
))
    ensures
        naive_page_fits(r.0, page_number, width, height, text_result(extracted)),
        match r.1 {
            Some(w) => naive_warning(page_number, text_result(extracted)) == Some(warning_view(w)),
            None => naive_warning(page_number, text_result(extracted)) is None,
        },
{
    let index: u32 = if page_number > 0 {
        page_number - 1
    } else {
        0
    };
    let mut page = Page::empty(index, width, height);
    match extracted {
        Ok(text) => {
            let cs = chars_of(text.as_str());
            let t = trim_chars(cs.as_slice());
            if t.len() > 0 {
                let body = string_from_chars(t.as_slice());
                page.blocks.push(
                    Block::Paragraph(
                        Paragraph { bbox: BBox::zero(), text: body, heading_level: None, role: None },
                    ),
                );
            }
            (page, None)
        },
        Err(reason) => {
            let mut detail = "text extraction failed: ".to_owned();
            detail.append(reason.as_str());
            (page, Some(warn(index, detail)))
        },
    }
}

} // verus!
